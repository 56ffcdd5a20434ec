//! The persisted form of a list: a JSON array of objects with a string
//! `item` field and a boolean `done` field. Encoding is a fixed, compact
//! form; decoding accepts the usual JSON freedoms (whitespace between
//! tokens, either field order, string escapes).

use vstd::prelude::*;
use crate::model::Todo;
use crate::model::TodoError;
use crate::model::TodoView;
use crate::model::views;
use crate::ascii::BACKSLASH;
use crate::ascii::BS;
use crate::ascii::COLON;
use crate::ascii::COMMA;
use crate::ascii::CR;
use crate::ascii::FF;
use crate::ascii::LBRACE;
use crate::ascii::LBRACKET;
use crate::ascii::LC_A;
use crate::ascii::LC_B;
use crate::ascii::LC_D;
use crate::ascii::LC_E;
use crate::ascii::LC_F;
use crate::ascii::LC_I;
use crate::ascii::LC_L;
use crate::ascii::LC_M;
use crate::ascii::LC_N;
use crate::ascii::LC_O;
use crate::ascii::LC_R;
use crate::ascii::LC_S;
use crate::ascii::LC_T;
use crate::ascii::LC_U;
use crate::ascii::LF;
use crate::ascii::QUOTE;
use crate::ascii::RBRACE;
use crate::ascii::RBRACKET;
use crate::ascii::SPACE;
use crate::ascii::TAB;
use crate::ascii::NINE;
use crate::ascii::SLASH;
use crate::ascii::UC_A;
use crate::ascii::UC_F;
use crate::ascii::ZERO;

verus! {

/// The `item` field name.
pub open spec fn item_key() -> Seq<u8> {
    seq![LC_I, LC_T, LC_E, LC_M]
}

/// The `done` field name.
pub open spec fn done_key() -> Seq<u8> {
    seq![LC_D, LC_O, LC_N, LC_E]
}

/// `{"item":"` — up to the opening quote of the text.
pub open spec fn obj_open() -> Seq<u8> {
    seq![LBRACE, QUOTE] + item_key() + seq![QUOTE, COLON, QUOTE]
}

/// `","done":` — from the closing quote of the text to the flag.
pub open spec fn obj_mid() -> Seq<u8> {
    seq![QUOTE, COMMA, QUOTE] + done_key() + seq![QUOTE, COLON]
}

pub open spec fn true_lit() -> Seq<u8> {
    seq![LC_T, LC_R, LC_U, LC_E]
}

pub open spec fn false_lit() -> Seq<u8> {
    seq![LC_F, LC_A, LC_L, LC_S, LC_E]
}

/// Lower-case hex digit of a value below 16.
pub open spec fn hex_digit(n: nat) -> u8 {
    if n < 10 {
        (ZERO + n) as u8
    } else {
        (LC_A + (n - 10)) as u8
    }
}

/// How one text byte is written inside a JSON string: quote and backslash
/// get a backslash escape, the named control characters their short escape,
/// other control bytes a `\u00..` escape, everything else stands as itself.
pub open spec fn esc_byte(b: u8) -> Seq<u8> {
    if b == QUOTE {
        seq![BACKSLASH, QUOTE]
    } else if b == BACKSLASH {
        seq![BACKSLASH, BACKSLASH]
    } else if b == BS {
        seq![BACKSLASH, LC_B]
    } else if b == TAB {
        seq![BACKSLASH, LC_T]
    } else if b == LF {
        seq![BACKSLASH, LC_N]
    } else if b == FF {
        seq![BACKSLASH, LC_F]
    } else if b == CR {
        seq![BACKSLASH, LC_R]
    } else if b < SPACE {
        seq![BACKSLASH, LC_U, ZERO, ZERO, hex_digit((b / 16) as nat), hex_digit((b % 16) as nat)]
    } else {
        seq![b]
    }
}

/// A whole text, escaped byte for byte.
pub open spec fn esc(s: Seq<u8>) -> Seq<u8>
    decreases s.len(),
{
    if s.len() == 0 {
        Seq::empty()
    } else {
        esc_byte(s[0]) + esc(s.drop_first())
    }
}

/// One item as an object, `item` field first.
pub open spec fn enc_todo(t: TodoView) -> Seq<u8> {
    obj_open() + esc(t.item) + obj_mid() + (if t.done {
        true_lit()
    } else {
        false_lit()
    }) + seq![RBRACE]
}

/// The items, comma-separated.
pub open spec fn enc_items(s: Seq<TodoView>) -> Seq<u8>
    decreases s.len(),
{
    if s.len() == 0 {
        Seq::empty()
    } else if s.len() == 1 {
        enc_todo(s[0])
    } else {
        enc_todo(s[0]) + seq![COMMA] + enc_items(s.drop_first())
    }
}

/// The whole list as a JSON array.
pub open spec fn enc_list(s: Seq<TodoView>) -> Seq<u8> {
    seq![LBRACKET] + enc_items(s) + seq![RBRACKET]
}

/// JSON insignificant whitespace.
pub open spec fn is_ws(b: u8) -> bool {
    b == SPACE || b == TAB || b == LF || b == CR
}

/// Drops leading whitespace.
pub open spec fn skip_ws(s: Seq<u8>) -> Seq<u8>
    decreases s.len(),
{
    if s.len() > 0 && is_ws(s[0]) {
        skip_ws(s.drop_first())
    } else {
        s
    }
}

/// The byte a single-character escape stands for, if the character names one.
pub open spec fn unesc(e: u8) -> Option<u8> {
    if e == QUOTE {
        Some(QUOTE)
    } else if e == BACKSLASH {
        Some(BACKSLASH)
    } else if e == SLASH {
        Some(SLASH)
    } else if e == LC_B {
        Some(BS)
    } else if e == LC_F {
        Some(FF)
    } else if e == LC_N {
        Some(LF)
    } else if e == LC_R {
        Some(CR)
    } else if e == LC_T {
        Some(TAB)
    } else {
        None
    }
}

/// The value of a hex digit, either case.
pub open spec fn hex_val(b: u8) -> Option<nat> {
    if ZERO <= b <= NINE {
        Some((b - ZERO) as nat)
    } else if LC_A <= b <= LC_F {
        Some((10 + b - LC_A) as nat)
    } else if UC_A <= b <= UC_F {
        Some((10 + b - UC_A) as nat)
    } else {
        None
    }
}

/// The UTF-8 bytes of a code point below 0x10000 (surrogates are rejected
/// before this is applied).
pub open spec fn utf8_of(v: nat) -> Seq<u8> {
    if v < 0x80 {
        seq![v as u8]
    } else if v < 0x800 {
        seq![(0xC0 + v / 0x40) as u8, (0x80 + v % 0x40) as u8]
    } else {
        seq![(0xE0 + v / 0x1000) as u8, (0x80 + (v / 0x40) % 0x40) as u8, (0x80 + v % 0x40) as u8]
    }
}

/// Parses the inside of a JSON string, the opening quote already consumed:
/// yields the unescaped bytes and what follows the closing quote. Raw
/// control bytes, unknown escapes, bad hex and surrogate code points fail.
pub open spec fn parse_string_body(s: Seq<u8>) -> Option<(Seq<u8>, Seq<u8>)>
    decreases s.len(),
{
    if s.len() == 0 {
        None
    } else if s[0] == QUOTE {
        Some((Seq::empty(), s.drop_first()))
    } else if s[0] == BACKSLASH {
        if s.len() < 2 {
            None
        } else if s[1] == LC_U {
            if s.len() < 6 {
                None
            } else {
                match (hex_val(s[2]), hex_val(s[3]), hex_val(s[4]), hex_val(s[5])) {
                    (Some(h0), Some(h1), Some(h2), Some(h3)) => {
                        let v = h0 * 0x1000 + h1 * 0x100 + h2 * 0x10 + h3;
                        if 0xD800 <= v < 0xE000 {
                            None
                        } else {
                            match parse_string_body(s.skip(6)) {
                                Some(p) => Some((utf8_of(v) + p.0, p.1)),
                                None => None,
                            }
                        }
                    },
                    _ => None,
                }
            }
        } else {
            match unesc(s[1]) {
                Some(b) => match parse_string_body(s.skip(2)) {
                    Some(p) => Some((seq![b] + p.0, p.1)),
                    None => None,
                },
                None => None,
            }
        }
    } else if s[0] < SPACE {
        None
    } else {
        match parse_string_body(s.drop_first()) {
            Some(p) => Some((seq![s[0]] + p.0, p.1)),
            None => None,
        }
    }
}

/// Parses a JSON boolean literal.
pub open spec fn parse_bool(s: Seq<u8>) -> Option<(bool, Seq<u8>)> {
    if s.len() >= 4 && s[0] == LC_T && s[1] == LC_R && s[2] == LC_U && s[3] == LC_E {
        Some((true, s.skip(4)))
    } else if s.len() >= 5 && s[0] == LC_F && s[1] == LC_A && s[2] == LC_L && s[3] == LC_S && s[4]
        == LC_E {
        Some((false, s.skip(5)))
    } else {
        None
    }
}

/// One parsed object member: either field of an item.
pub ghost enum Member {
    ItemText(Seq<u8>),
    DoneFlag(bool),
}

/// Parses one `"key": value` member, the cursor on the opening quote of the
/// key; only the two known keys are accepted, each with its own value type.
pub open spec fn parse_member(s: Seq<u8>) -> Option<(Member, Seq<u8>)> {
    if s.len() == 0 || s[0] != QUOTE {
        None
    } else {
        match parse_string_body(s.drop_first()) {
            None => None,
            Some(pk) => {
                let r2 = skip_ws(pk.1);
                if r2.len() == 0 || r2[0] != COLON {
                    None
                } else {
                    let r3 = skip_ws(r2.drop_first());
                    if pk.0 == item_key() {
                        if r3.len() == 0 || r3[0] != QUOTE {
                            None
                        } else {
                            match parse_string_body(r3.drop_first()) {
                                None => None,
                                Some(pv) => Some((Member::ItemText(pv.0), pv.1)),
                            }
                        }
                    } else if pk.0 == done_key() {
                        match parse_bool(r3) {
                            None => None,
                            Some(pv) => Some((Member::DoneFlag(pv.0), pv.1)),
                        }
                    } else {
                        None
                    }
                }
            },
        }
    }
}

/// Parses one item object: exactly two members, one of each key, in either
/// order.
pub open spec fn parse_todo(s: Seq<u8>) -> Option<(TodoView, Seq<u8>)> {
    if s.len() == 0 || s[0] != LBRACE {
        None
    } else {
        match parse_member(skip_ws(s.drop_first())) {
            None => None,
            Some(p1) => {
                let r3 = skip_ws(p1.1);
                if r3.len() == 0 || r3[0] != COMMA {
                    None
                } else {
                    match parse_member(skip_ws(r3.drop_first())) {
                        None => None,
                        Some(p2) => {
                            let r6 = skip_ws(p2.1);
                            if r6.len() == 0 || r6[0] != RBRACE {
                                None
                            } else {
                                match (p1.0, p2.0) {
                                    (Member::ItemText(t), Member::DoneFlag(d)) => Some(
                                        (TodoView { item: t, done: d }, r6.drop_first()),
                                    ),
                                    (Member::DoneFlag(d), Member::ItemText(t)) => Some(
                                        (TodoView { item: t, done: d }, r6.drop_first()),
                                    ),
                                    _ => None,
                                }
                            }
                        },
                    }
                }
            },
        }
    }
}

/// Parses the items of a non-empty array, the cursor on the first object,
/// up to and including the closing bracket.
pub open spec fn parse_items(s: Seq<u8>) -> Option<(Seq<TodoView>, Seq<u8>)>
    decreases s.len(),
{
    match parse_todo(s) {
        None => None,
        Some(pt) => {
            let r2 = skip_ws(pt.1);
            if r2.len() == 0 {
                None
            } else if r2[0] == RBRACKET {
                Some((seq![pt.0], r2.drop_first()))
            } else if r2[0] == COMMA {
                let r3 = skip_ws(r2.drop_first());
                if r3.len() < s.len() {
                    match parse_items(r3) {
                        None => None,
                        Some(pr) => Some((seq![pt.0] + pr.0, pr.1)),
                    }
                } else {
                    None
                }
            } else {
                None
            }
        },
    }
}

/// Parses a whole stored list: one JSON array of item objects and nothing
/// but whitespace around it.
pub open spec fn parse_list(s: Seq<u8>) -> Option<Seq<TodoView>> {
    let r0 = skip_ws(s);
    if r0.len() == 0 || r0[0] != LBRACKET {
        None
    } else {
        let r1 = skip_ws(r0.drop_first());
        if r1.len() > 0 && r1[0] == RBRACKET {
            if skip_ws(r1.drop_first()).len() == 0 {
                Some(Seq::empty())
            } else {
                None
            }
        } else {
            match parse_items(r1) {
                None => None,
                Some(pr) => if skip_ws(pr.1).len() == 0 {
                    Some(pr.0)
                } else {
                    None
                },
            }
        }
    }
}

/// What stored bytes mean: nothing at all is the empty list (a freshly
/// created store); anything else must parse as a list.
pub open spec fn decode_spec(s: Seq<u8>) -> Option<Seq<TodoView>> {
    if s.len() == 0 {
        Some(Seq::empty())
    } else {
        parse_list(s)
    }
}

fn hex_digit_x(n: u8) -> (r: u8)
    requires
        n < 16,
    ensures
        r == hex_digit(n as nat),
{
    if n < 10 {
        ZERO + n
    } else {
        LC_A + (n - 10)
    }
}

fn push_esc(out: &mut Vec<u8>, v: &Vec<u8>)
    ensures
        final(out)@ == old(out)@ + esc(v@),
{
    let ghost o0 = out@;
    let mut j: usize = 0;
    proof {
        assert(v@.skip(0) =~= v@);
    }
    while j < v.len()
        invariant
            j <= v@.len(),
            o0 + esc(v@) == out@ + esc(v@.skip(j as int)),
        decreases v@.len() - j,
    {
        proof {
            assert(v@.skip(j as int)[0] == v@[j as int]);
            assert(v@.skip(j as int).drop_first() =~= v@.skip(j + 1));
        }
        let ghost o1 = out@;
        let b = v[j];
        if b == QUOTE {
            out.push(BACKSLASH);
            out.push(QUOTE);
        } else if b == BACKSLASH {
            out.push(BACKSLASH);
            out.push(BACKSLASH);
        } else if b == BS {
            out.push(BACKSLASH);
            out.push(LC_B);
        } else if b == TAB {
            out.push(BACKSLASH);
            out.push(LC_T);
        } else if b == LF {
            out.push(BACKSLASH);
            out.push(LC_N);
        } else if b == FF {
            out.push(BACKSLASH);
            out.push(LC_F);
        } else if b == CR {
            out.push(BACKSLASH);
            out.push(LC_R);
        } else if b < SPACE {
            out.push(BACKSLASH);
            out.push(LC_U);
            out.push(ZERO);
            out.push(ZERO);
            out.push(hex_digit_x(b / 16));
            out.push(hex_digit_x(b % 16));
        } else {
            out.push(b);
        }
        proof {
            assert(out@ =~= o1 + esc_byte(v@[j as int]));
            assert(o1 + esc(v@.skip(j as int)) =~= out@ + esc(v@.skip(j + 1)));
        }
        j += 1;
    }
    proof {
        assert(v@.skip(v@.len() as int) =~= Seq::<u8>::empty());
        assert(out@ + esc(Seq::<u8>::empty()) =~= out@);
    }
}

#[verifier::rlimit(50)]
fn push_enc_todo(out: &mut Vec<u8>, t: &Todo)
    ensures
        final(out)@ == old(out)@ + enc_todo(t@),
{
    let ghost o0 = out@;
    out.push(LBRACE);
    out.push(QUOTE);
    out.push(LC_I);
    out.push(LC_T);
    out.push(LC_E);
    out.push(LC_M);
    out.push(QUOTE);
    out.push(COLON);
    out.push(QUOTE);
    proof {
        assert(out@ =~= o0 + obj_open());
    }
    push_esc(out, &t.item);
    let ghost o1 = out@;
    out.push(QUOTE);
    out.push(COMMA);
    out.push(QUOTE);
    out.push(LC_D);
    out.push(LC_O);
    out.push(LC_N);
    out.push(LC_E);
    out.push(QUOTE);
    out.push(COLON);
    proof {
        assert(out@ =~= o1 + obj_mid());
    }
    let ghost o2 = out@;
    if t.done {
        out.push(LC_T);
        out.push(LC_R);
        out.push(LC_U);
        out.push(LC_E);
        proof {
            assert(out@ =~= o2 + true_lit());
        }
    } else {
        out.push(LC_F);
        out.push(LC_A);
        out.push(LC_L);
        out.push(LC_S);
        out.push(LC_E);
        proof {
            assert(out@ =~= o2 + false_lit());
        }
    }
    out.push(RBRACE);
    proof {
        assert(out@ =~= o0 + enc_todo(t@));
    }
}

/// Writes the list in the persisted form: `enc_list` of its view, exactly.
pub fn encode(todo_list: &Vec<Todo>) -> (r: Vec<u8>)
    ensures
        r@ == enc_list(views(todo_list@)),
{
    let ghost s = views(todo_list@);
    let mut out: Vec<u8> = Vec::new();
    out.push(LBRACKET);
    proof {
        assert(s.skip(0) =~= s);
        assert(out@ =~= seq![LBRACKET]);
    }
    let mut j: usize = 0;
    while j < todo_list.len()
        invariant
            j <= todo_list@.len(),
            s == views(todo_list@),
            out@ + enc_items(s.skip(j as int)) == seq![LBRACKET] + enc_items(s),
        decreases todo_list@.len() - j,
    {
        proof {
            assert(s.skip(j as int)[0] == s[j as int]);
            assert(s.skip(j as int).drop_first() =~= s.skip(j + 1));
        }
        let ghost o1 = out@;
        push_enc_todo(&mut out, &todo_list[j]);
        if j + 1 < todo_list.len() {
            out.push(COMMA);
            proof {
                assert(out@ =~= o1 + (enc_todo(s[j as int]) + seq![COMMA]));
                assert(out@ + enc_items(s.skip(j + 1)) =~= o1 + enc_items(s.skip(j as int)));
            }
        } else {
            proof {
                assert(s.skip(j as int).len() == 1);
                assert(s.skip(j + 1) =~= Seq::<TodoView>::empty());
                assert(out@ + enc_items(s.skip(j + 1)) =~= o1 + enc_items(s.skip(j as int)));
            }
        }
        j += 1;
    }
    proof {
        assert(s.skip(todo_list@.len() as int) =~= Seq::<TodoView>::empty());
        assert(out@ =~= seq![LBRACKET] + enc_items(s));
    }
    out.push(RBRACKET);
    proof {
        assert(out@ =~= enc_list(s));
    }
    out
}


fn ws_to(s: &Vec<u8>, i: usize) -> (j: usize)
    requires
        i <= s@.len(),
    ensures
        i <= j <= s@.len(),
        s@.skip(j as int) == skip_ws(s@.skip(i as int)),
{
    let mut j = i;
    while j < s.len() && (s[j] == SPACE || s[j] == TAB || s[j] == LF || s[j] == CR)
        invariant
            i <= j <= s@.len(),
            skip_ws(s@.skip(i as int)) == skip_ws(s@.skip(j as int)),
        decreases s@.len() - j,
    {
        proof {
            assert(s@.skip(j as int)[0] == s@[j as int]);
            assert(s@.skip(j as int).drop_first() =~= s@.skip(j + 1));
        }
        j += 1;
    }
    proof {
        if j < s@.len() {
            assert(s@.skip(j as int)[0] == s@[j as int]);
        }
        assert(skip_ws(s@.skip(j as int)) == s@.skip(j as int));
    }
    j
}

fn hex_x(b: u8) -> (r: Option<u8>)
    ensures
        r is Some <==> hex_val(b) is Some,
        r matches Some(h) ==> h < 16 && hex_val(b) == Some(h as nat),
{
    if ZERO <= b && b <= NINE {
        Some(b - ZERO)
    } else if LC_A <= b && b <= LC_F {
        Some(10 + b - LC_A)
    } else if UC_A <= b && b <= UC_F {
        Some(10 + b - UC_A)
    } else {
        None
    }
}

fn string_body_x(s: &Vec<u8>, i: usize, out: &mut Vec<u8>) -> (r: Option<usize>)
    requires
        i <= s@.len(),
    ensures
        r is Some <==> parse_string_body(s@.skip(i as int)) is Some,
        r matches Some(j) ==> i <= j <= s@.len() && (parse_string_body(s@.skip(i as int))
            matches Some(p) && final(out)@ == old(out)@ + p.0 && p.1 == s@.skip(j as int)),
    decreases s@.len() - i,
{
    let ghost su = s@.skip(i as int);
    if i == s.len() {
        return None;
    }
    proof {
        assert(su[0] == s@[i as int]);
        assert(su.drop_first() =~= s@.skip(i + 1));
    }
    let b = s[i];
    if b == QUOTE {
        proof {
            assert(out@ =~= out@ + Seq::<u8>::empty());
        }
        return Some(i + 1);
    }
    if b == BACKSLASH {
        if i + 1 == s.len() {
            return None;
        }
        proof {
            assert(su[1] == s@[i + 1]);
        }
        let e = s[i + 1];
        if e == LC_U {
            if s.len() - i < 6 {
                return None;
            }
            proof {
                assert(su[2] == s@[i + 2]);
                assert(su[3] == s@[i + 3]);
                assert(su[4] == s@[i + 4]);
                assert(su[5] == s@[i + 5]);
            }
            let h0 = hex_x(s[i + 2]);
            let h1 = hex_x(s[i + 3]);
            let h2 = hex_x(s[i + 4]);
            let h3 = hex_x(s[i + 5]);
            match (h0, h1, h2, h3) {
                (Some(a0), Some(a1), Some(a2), Some(a3)) => {
                    let v: u32 = (a0 as u32) * 0x1000 + (a1 as u32) * 0x100 + (a2 as u32) * 0x10
                        + (a3 as u32);
                    if 0xD800 <= v && v < 0xE000 {
                        return None;
                    }
                    let ghost o0 = out@;
                    if v < 0x80 {
                        out.push(v as u8);
                    } else if v < 0x800 {
                        out.push((0xC0 + v / 0x40) as u8);
                        out.push((0x80 + v % 0x40) as u8);
                    } else {
                        out.push((0xE0 + v / 0x1000) as u8);
                        out.push((0x80 + (v / 0x40) % 0x40) as u8);
                        out.push((0x80 + v % 0x40) as u8);
                    }
                    proof {
                        assert(out@ =~= o0 + utf8_of(v as nat));
                        assert(su.skip(6) =~= s@.skip(i + 6));
                    }
                    let r2 = string_body_x(s, i + 6, out);
                    proof {
                        if r2 is Some {
                            let p = parse_string_body(s@.skip(i + 6)).unwrap();
                            assert(out@ =~= o0 + (utf8_of(v as nat) + p.0));
                        }
                    }
                    return r2;
                },
                _ => {
                    return None;
                },
            }
        }
        let u = if e == QUOTE {
            Some(QUOTE)
        } else if e == BACKSLASH {
            Some(BACKSLASH)
        } else if e == SLASH {
            Some(SLASH)
        } else if e == LC_B {
            Some(BS)
        } else if e == LC_F {
            Some(FF)
        } else if e == LC_N {
            Some(LF)
        } else if e == LC_R {
            Some(CR)
        } else if e == LC_T {
            Some(TAB)
        } else {
            None
        };
        match u {
            Some(ub) => {
                let ghost o0 = out@;
                out.push(ub);
                proof {
                    assert(su.skip(2) =~= s@.skip(i + 2));
                }
                let r2 = string_body_x(s, i + 2, out);
                proof {
                    if r2 is Some {
                        let p = parse_string_body(s@.skip(i + 2)).unwrap();
                        assert(out@ =~= o0 + (seq![ub] + p.0));
                    }
                }
                return r2;
            },
            None => {
                return None;
            },
        }
    }
    if b < SPACE {
        return None;
    }
    let ghost o0 = out@;
    out.push(b);
    let r2 = string_body_x(s, i + 1, out);
    proof {
        if r2 is Some {
            let p = parse_string_body(s@.skip(i + 1)).unwrap();
            assert(out@ =~= o0 + (seq![b] + p.0));
        }
    }
    r2
}

fn bool_x(s: &Vec<u8>, i: usize) -> (r: Option<(bool, usize)>)
    requires
        i <= s@.len(),
    ensures
        r is Some <==> parse_bool(s@.skip(i as int)) is Some,
        r matches Some(p) ==> i <= p.1 <= s@.len() && parse_bool(s@.skip(i as int)) == Some(
            (p.0, s@.skip(p.1 as int)),
        ),
{
    let ghost su = s@.skip(i as int);
    proof {
        if su.len() >= 1 {
            assert(su[0] == s@[i as int]);
        }
        if su.len() >= 2 {
            assert(su[1] == s@[i + 1]);
        }
        if su.len() >= 3 {
            assert(su[2] == s@[i + 2]);
        }
        if su.len() >= 4 {
            assert(su[3] == s@[i + 3]);
        }
        if su.len() >= 5 {
            assert(su[4] == s@[i + 4]);
        }
    }
    if s.len() - i >= 4 && s[i] == LC_T && s[i + 1] == LC_R && s[i + 2] == LC_U && s[i + 3]
        == LC_E {
        proof {
            assert(su.skip(4) =~= s@.skip(i + 4));
        }
        Some((true, i + 4))
    } else if s.len() - i >= 5 && s[i] == LC_F && s[i + 1] == LC_A && s[i + 2] == LC_L && s[i + 3]
        == LC_S && s[i + 4] == LC_E {
        proof {
            assert(su.skip(5) =~= s@.skip(i + 5));
        }
        Some((false, i + 5))
    } else {
        None
    }
}

/// One parsed member as the decoder carries it.
enum MemberX {
    ItemText(Vec<u8>),
    DoneFlag(bool),
}

/// The member a decoded one stands for.
spec fn member_view(m: MemberX) -> Member {
    match m {
        MemberX::ItemText(v) => Member::ItemText(v@),
        MemberX::DoneFlag(b) => Member::DoneFlag(b),
    }
}

fn member_x(s: &Vec<u8>, i: usize) -> (r: Option<(MemberX, usize)>)
    requires
        i <= s@.len(),
    ensures
        r is Some <==> parse_member(s@.skip(i as int)) is Some,
        r matches Some(p) ==> i <= p.1 <= s@.len() && (parse_member(s@.skip(i as int))
            matches Some(pm) && pm.0 == member_view(p.0) && pm.1 == s@.skip(p.1 as int)),
{
    let ghost su = s@.skip(i as int);
    if i == s.len() {
        return None;
    }
    proof {
        assert(su[0] == s@[i as int]);
        assert(su.drop_first() =~= s@.skip(i + 1));
    }
    if s[i] != QUOTE {
        return None;
    }
    let mut key: Vec<u8> = Vec::new();
    let j1 = match string_body_x(s, i + 1, &mut key) {
        None => {
            return None;
        },
        Some(j) => j,
    };
    proof {
        assert(key@ =~= parse_string_body(su.drop_first()).unwrap().0);
    }
    let j2 = ws_to(s, j1);
    if j2 == s.len() || s[j2] != COLON {
        proof {
            if j2 < s@.len() {
                assert(s@.skip(j2 as int)[0] == s@[j2 as int]);
            }
        }
        return None;
    }
    proof {
        assert(s@.skip(j2 as int)[0] == s@[j2 as int]);
        assert(s@.skip(j2 as int).drop_first() =~= s@.skip(j2 + 1));
    }
    let j3 = ws_to(s, j2 + 1);
    let is_item = key.len() == 4 && key[0] == LC_I && key[1] == LC_T && key[2] == LC_E && key[3]
        == LC_M;
    let is_done = key.len() == 4 && key[0] == LC_D && key[1] == LC_O && key[2] == LC_N && key[3]
        == LC_E;
    proof {
        if is_item {
            assert(key@ =~= item_key());
        } else {
            assert(key@ != item_key());
        }
        if is_done {
            assert(key@ =~= done_key());
        } else {
            assert(key@ != done_key());
        }
    }
    if is_item {
        if j3 == s.len() || s[j3] != QUOTE {
            proof {
                if j3 < s@.len() {
                    assert(s@.skip(j3 as int)[0] == s@[j3 as int]);
                }
            }
            return None;
        }
        proof {
            assert(s@.skip(j3 as int)[0] == s@[j3 as int]);
            assert(s@.skip(j3 as int).drop_first() =~= s@.skip(j3 + 1));
        }
        let mut val: Vec<u8> = Vec::new();
        match string_body_x(s, j3 + 1, &mut val) {
            None => None,
            Some(j4) => Some((MemberX::ItemText(val), j4)),
        }
    } else if is_done {
        match bool_x(s, j3) {
            None => None,
            Some(p) => Some((MemberX::DoneFlag(p.0), p.1)),
        }
    } else {
        None
    }
}

fn todo_x(s: &Vec<u8>, i: usize) -> (r: Option<(Todo, usize)>)
    requires
        i <= s@.len(),
    ensures
        r is Some <==> parse_todo(s@.skip(i as int)) is Some,
        r matches Some(p) ==> i < p.1 <= s@.len() && parse_todo(s@.skip(i as int)) == Some(
            (p.0@, s@.skip(p.1 as int)),
        ),
{
    let ghost su = s@.skip(i as int);
    if i == s.len() {
        return None;
    }
    proof {
        assert(su[0] == s@[i as int]);
        assert(su.drop_first() =~= s@.skip(i + 1));
    }
    if s[i] != LBRACE {
        return None;
    }
    let j1 = ws_to(s, i + 1);
    let (m1, j2) = match member_x(s, j1) {
        None => {
            return None;
        },
        Some(p) => p,
    };
    let j3 = ws_to(s, j2);
    if j3 == s.len() || s[j3] != COMMA {
        proof {
            if j3 < s@.len() {
                assert(s@.skip(j3 as int)[0] == s@[j3 as int]);
            }
        }
        return None;
    }
    proof {
        assert(s@.skip(j3 as int)[0] == s@[j3 as int]);
        assert(s@.skip(j3 as int).drop_first() =~= s@.skip(j3 + 1));
    }
    let j4 = ws_to(s, j3 + 1);
    let (m2, j5) = match member_x(s, j4) {
        None => {
            return None;
        },
        Some(p) => p,
    };
    let j6 = ws_to(s, j5);
    if j6 == s.len() || s[j6] != RBRACE {
        proof {
            if j6 < s@.len() {
                assert(s@.skip(j6 as int)[0] == s@[j6 as int]);
            }
        }
        return None;
    }
    proof {
        assert(s@.skip(j6 as int)[0] == s@[j6 as int]);
        assert(s@.skip(j6 as int).drop_first() =~= s@.skip(j6 + 1));
    }
    match (m1, m2) {
        (MemberX::ItemText(v), MemberX::DoneFlag(d)) => Some((Todo { item: v, done: d }, j6 + 1)),
        (MemberX::DoneFlag(d), MemberX::ItemText(v)) => Some((Todo { item: v, done: d }, j6 + 1)),
        _ => None,
    }
}

fn items_x(s: &Vec<u8>, i: usize, out: &mut Vec<Todo>) -> (r: Option<usize>)
    requires
        i <= s@.len(),
    ensures
        r is Some <==> parse_items(s@.skip(i as int)) is Some,
        r matches Some(j) ==> i <= j <= s@.len() && (parse_items(s@.skip(i as int))
            matches Some(p) && views(final(out)@) == views(old(out)@) + p.0 && p.1 == s@.skip(
            j as int,
        )),
    decreases s@.len() - i,
{
    let ghost su = s@.skip(i as int);
    let (t, j1) = match todo_x(s, i) {
        None => {
            return None;
        },
        Some(p) => p,
    };
    let ghost tv = t@;
    let ghost o0 = views(out@);
    out.push(t);
    proof {
        assert(views(out@) =~= o0 + seq![tv]);
    }
    let j2 = ws_to(s, j1);
    if j2 == s.len() {
        return None;
    }
    proof {
        assert(s@.skip(j2 as int)[0] == s@[j2 as int]);
        assert(s@.skip(j2 as int).drop_first() =~= s@.skip(j2 + 1));
    }
    if s[j2] == RBRACKET {
        proof {
            assert(views(out@) =~= o0 + seq![tv]);
        }
        return Some(j2 + 1);
    }
    if s[j2] == COMMA {
        let j3 = ws_to(s, j2 + 1);
        proof {
            assert(s@.skip(j3 as int).len() < su.len());
        }
        let ghost o1 = views(out@);
        let r2 = items_x(s, j3, out);
        proof {
            if r2 is Some {
                let p = parse_items(s@.skip(j3 as int)).unwrap();
                assert(views(out@) =~= o0 + (seq![tv] + p.0));
            }
        }
        r2
    } else {
        None
    }
}

/// Reads stored bytes back into a list. Empty content is the empty list (a
/// freshly created store file); any other content must be exactly the
/// persisted form, or the call reports the store as corrupt rather than
/// guessing. Succeeds exactly when `decode_spec` accepts the bytes, and then
/// returns exactly the list they encode.
pub fn decode(s: &Vec<u8>) -> (r: Result<Vec<Todo>, TodoError>)
    ensures
        r is Ok <==> decode_spec(s@) is Some,
        r matches Ok(l) ==> decode_spec(s@) == Some(views(l@)),
        r matches Err(e) ==> e == TodoError::CorruptStore,
{
    if s.len() == 0 {
        let empty: Vec<Todo> = Vec::new();
        proof {
            assert(views(empty@) =~= Seq::<TodoView>::empty());
        }
        return Ok(empty);
    }
    proof {
        assert(s@.skip(0) =~= s@);
    }
    let i0 = ws_to(s, 0);
    if i0 == s.len() || s[i0] != LBRACKET {
        proof {
            if i0 < s@.len() {
                assert(s@.skip(i0 as int)[0] == s@[i0 as int]);
            }
        }
        return Err(TodoError::CorruptStore);
    }
    proof {
        assert(s@.skip(i0 as int)[0] == s@[i0 as int]);
        assert(s@.skip(i0 as int).drop_first() =~= s@.skip(i0 + 1));
    }
    let i1 = ws_to(s, i0 + 1);
    if i1 < s.len() && s[i1] == RBRACKET {
        proof {
            assert(s@.skip(i1 as int)[0] == s@[i1 as int]);
            assert(s@.skip(i1 as int).drop_first() =~= s@.skip(i1 + 1));
        }
        let i2 = ws_to(s, i1 + 1);
        if i2 == s.len() {
            let empty: Vec<Todo> = Vec::new();
            proof {
                assert(views(empty@) =~= Seq::<TodoView>::empty());
            }
            return Ok(empty);
        } else {
            return Err(TodoError::CorruptStore);
        }
    }
    proof {
        if i1 < s@.len() {
            assert(s@.skip(i1 as int)[0] == s@[i1 as int]);
        }
    }
    let mut items: Vec<Todo> = Vec::new();
    match items_x(s, i1, &mut items) {
        None => Err(TodoError::CorruptStore),
        Some(j) => {
            let j2 = ws_to(s, j);
            if j2 == s.len() {
                proof {
                    let p = parse_items(s@.skip(i1 as int)).unwrap();
                    assert(views(items@) =~= p.0);
                }
                Ok(items)
            } else {
                Err(TodoError::CorruptStore)
            }
        },
    }
}

} // verus!