//! The round-trip law: rendering a well-behaved value tree and parsing the
//! text back yields the very same tree.

use vstd::prelude::*;
use crate::json_object::JsonVal;
use crate::parser::ErrKind;
use crate::parser::adv;
use crate::parser::dec_val;
use crate::parser::digit_val;
use crate::parser::hex4_ok;
use crate::parser::hex4_val;
use crate::parser::hex_digit_val;
use crate::parser::is_digit;
use crate::parser::is_hex;
use crate::parser::is_lower;
use crate::parser::is_scalar;
use crate::parser::is_ws;
use crate::parser::char_of;
use crate::parser::esc_char;
use crate::parser::kw_end;
use crate::parser::num_scan;
use crate::parser::skip_ws;
use crate::parser::sp_any;
use crate::parser::sp_arr_items;
use crate::parser::sp_number;
use crate::parser::sp_obj_after;
use crate::parser::sp_obj_colon;
use crate::parser::sp_obj_items;
use crate::parser::sp_obj_value;
use crate::parser::sp_parse;
use crate::parser::sp_str_body;
use crate::parser::lemma_any_ws;
use crate::parser::lemma_arr_items_ws;
use crate::parser::lemma_obj_after_ws;
use crate::parser::lemma_obj_items_ws;
use crate::renderer::dec_seq;
use crate::renderer::digit_char;
use crate::renderer::esc_all;
use crate::renderer::esc_seq;
use crate::renderer::hex4pad;
use crate::renderer::hex_char;
use crate::renderer::hex_seq;
use crate::renderer::sp_render;
use crate::renderer::sp_render_elems;
use crate::renderer::sp_render_pairs;
use crate::renderer::spaces;

verus! {

broadcast use vstd::seq::axiom_seq_index_decreases;

// ---------------------------------------------------------------------------
// Which trees survive the round trip unchanged
// ---------------------------------------------------------------------------

/// A character that starts no token and continues none: a value parsed just
/// before it ends exactly at it.
pub open spec fn stopper(c: char) -> bool {
    !is_digit(c) && c != '.' && !is_lower(c)
}

/// A numeric literal that re-reads as the same `Float`: it starts with a
/// digit and holds exactly one decimal point, the rest digits.
pub open spec fn float_token_wf(tok: Seq<char>) -> bool {
    exists|d: int|
        1 <= d < tok.len() && tok[d] == '.' && (forall|k: int|
            0 <= k < tok.len() && k != d ==> is_digit(#[trigger] tok[k]))
}

/// A tree whose rendering parses back to the very same tree.  Ruled out are
/// the renderings the parser cannot re-read the same way: a negative integer
/// (the number scan admits no sign), a float literal that is not digits with
/// exactly one decimal point, and a string character outside the basic
/// multilingual plane (its `\u` escape has more than four digits, and the
/// parser re-reads exactly four).
pub open spec fn stable(v: JsonVal) -> bool
    decreases v,
{
    match v {
        JsonVal::Object(ps) => stable_pairs(ps),
        JsonVal::Float(tok) => float_token_wf(tok),
        JsonVal::Integer(n) => n >= 0,
        JsonVal::String(cs) => forall|k: int|
            0 <= k < cs.len() ==> (#[trigger] cs[k] as u32) < 0x10000,
        JsonVal::Array(vs) => stable_elems(vs),
        JsonVal::Bool(b) => true,
        JsonVal::Null => true,
    }
}

/// Every key and value of the pairs is stable.
pub open spec fn stable_pairs(ps: Seq<(JsonVal, JsonVal)>) -> bool
    decreases ps,
{
    if ps.len() == 0 {
        true
    } else {
        stable_pairs(ps.drop_last()) && stable(ps.last().0) && stable(ps.last().1)
    }
}

/// Every element is stable.
pub open spec fn stable_elems(vs: Seq<JsonVal>) -> bool
    decreases vs,
{
    if vs.len() == 0 {
        true
    } else {
        stable_elems(vs.drop_last()) && stable(vs.last())
    }
}

proof fn lemma_stable_pairs_index(ps: Seq<(JsonVal, JsonVal)>, k: int)
    requires
        stable_pairs(ps),
        0 <= k < ps.len(),
    ensures
        stable(ps[k].0),
        stable(ps[k].1),
    decreases ps.len(),
{
    if k + 1 < ps.len() {
        assert(ps.drop_last()[k] == ps[k]);
        lemma_stable_pairs_index(ps.drop_last(), k);
    }
}

proof fn lemma_stable_elems_index(vs: Seq<JsonVal>, k: int)
    requires
        stable_elems(vs),
        0 <= k < vs.len(),
    ensures
        stable(vs[k]),
    decreases vs.len(),
{
    if k + 1 < vs.len() {
        assert(vs.drop_last()[k] == vs[k]);
        lemma_stable_elems_index(vs.drop_last(), k);
    }
}

// ---------------------------------------------------------------------------
// Small facts about the pieces of a rendering
// ---------------------------------------------------------------------------

proof fn lemma_skip_ws_run(s: Seq<char>, p: int, q: int)
    requires
        0 <= p <= q <= s.len(),
        forall|k: int| p <= k < q ==> is_ws(#[trigger] s[k]),
        q == s.len() || !is_ws(s[q]),
    ensures
        skip_ws(s, p) == q,
    decreases q - p,
{
    if p < q {
        lemma_skip_ws_run(s, p + 1, q);
    }
}

proof fn lemma_spaces_ws(n: nat)
    ensures
        spaces(n).len() == n,
        forall|k: int| 0 <= k < n ==> #[trigger] spaces(n)[k] == ' ',
    decreases n,
{
    if n > 0 {
        lemma_spaces_ws((n - 1) as nat);
    }
}

proof fn lemma_kw_run(s: Seq<char>, p: int, q: int)
    requires
        0 <= p <= q <= s.len(),
        forall|k: int| p <= k < q ==> is_lower(#[trigger] s[k]),
        q == s.len() || !is_lower(s[q]),
    ensures
        kw_end(s, p) == q,
    decreases q - p,
{
    if p < q {
        lemma_kw_run(s, p + 1, q);
    }
}

proof fn lemma_digits_scan(s: Seq<char>, p: int, q: int, seen: bool)
    requires
        0 <= p <= q <= s.len(),
        forall|k: int| p <= k < q ==> is_digit(#[trigger] s[k]),
    ensures
        num_scan(s, p, seen) == num_scan(s, q, seen),
    decreases q - p,
{
    if p < q {
        lemma_digits_scan(s, p + 1, q, seen);
    }
}

proof fn lemma_dec_seq_digits(n: nat)
    ensures
        dec_seq(n).len() >= 1,
        forall|k: int| 0 <= k < dec_seq(n).len() ==> is_digit(#[trigger] dec_seq(n)[k]),
    decreases n,
{
    if n >= 10 {
        lemma_dec_seq_digits(n / 10);
    }
}

proof fn lemma_dec_val_round(n: nat)
    ensures
        dec_val(dec_seq(n)) == n,
    decreases n,
{
    reveal_with_fuel(dec_val, 3);
    if n < 10 {
        assert(seq![digit_char(n)].drop_last() =~= Seq::<char>::empty());
        assert(digit_char(n) as u32 == 48 + n);
        assert(digit_val(digit_char(n)) == n);
    } else {
        lemma_dec_val_round(n / 10);
        assert(dec_seq(n).drop_last() =~= dec_seq(n / 10));
        assert(digit_char(n % 10) as u32 == 48 + n % 10);
        assert(digit_val(digit_char(n % 10)) == n % 10);
    }
}

proof fn lemma_esc_all_first(cs: Seq<char>)
    requires
        cs.len() > 0,
    ensures
        esc_all(cs) == esc_seq(cs[0]) + esc_all(cs.drop_first()),
    decreases cs.len(),
{
    if cs.len() == 1 {
        assert(cs.drop_last() =~= Seq::<char>::empty());
        assert(cs.drop_first() =~= Seq::<char>::empty());
        assert(esc_all(cs) =~= esc_seq(cs[0]) + esc_all(cs.drop_first()));
    } else {
        let dl = cs.drop_last();
        lemma_esc_all_first(dl);
        assert(cs.drop_first().drop_last() =~= dl.drop_first());
        assert(cs.drop_first().last() == cs.last());
        assert(esc_all(cs.drop_first()) == esc_all(dl.drop_first()) + esc_seq(cs.last()));
        assert(esc_all(cs) =~= esc_seq(cs[0]) + esc_all(cs.drop_first()));
    }
}

proof fn lemma_hex_char_val(x: nat)
    requires
        x < 16,
    ensures
        is_hex(hex_char(x)),
        hex_digit_val(hex_char(x)) == x,
{
}

proof fn lemma_hex4pad_bmp(v: nat)
    requires
        v < 0x10000,
    ensures
        hex4pad(v).len() == 4,
        forall|t: int| 0 <= t < 4 ==> is_hex(#[trigger] hex4pad(v)[t]),
        ((hex_digit_val(hex4pad(v)[0]) * 16 + hex_digit_val(hex4pad(v)[1])) * 16 + hex_digit_val(
            hex4pad(v)[2],
        )) * 16 + hex_digit_val(hex4pad(v)[3]) == v,
{
    reveal_with_fuel(hex_seq, 5);
    lemma_hex_char_val(v % 16);
    lemma_hex_char_val((v / 16) % 16);
    lemma_hex_char_val((v / 256) % 16);
    lemma_hex_char_val(v / 4096);
    lemma_hex_char_val(0);
    assert((v / 16) / 16 == v / 256) by (nonlinear_arith);
    assert((v / 256) / 16 == v / 4096) by (nonlinear_arith);
    assert(v == (v / 16) * 16 + v % 16);
    assert(v / 16 == ((v / 16) / 16) * 16 + (v / 16) % 16);
    assert(v / 256 == ((v / 256) / 16) * 16 + (v / 256) % 16);
    if v < 0x10 {
        assert(hex4pad(v) =~= seq!['0', '0', '0', hex_char(v)]);
    } else if v < 0x100 {
        assert(v / 16 < 16) by (nonlinear_arith)
            requires
                v < 0x100,
        ;
        assert(hex_seq(v) =~= seq![hex_char(v / 16), hex_char(v % 16)]);
        assert(hex4pad(v) =~= seq!['0', '0', hex_char(v / 16), hex_char(v % 16)]);
    } else if v < 0x1000 {
        assert(v / 256 < 16 && 16 <= v / 16) by (nonlinear_arith)
            requires
                0x100 <= v < 0x1000,
        ;
        assert(hex_seq(v / 16) =~= seq![hex_char(v / 256), hex_char((v / 16) % 16)]);
        assert(hex_seq(v) =~= seq![hex_char(v / 256), hex_char((v / 16) % 16), hex_char(v % 16)]);
        assert(hex4pad(v) =~= seq![
            '0',
            hex_char(v / 256),
            hex_char((v / 16) % 16),
            hex_char(v % 16),
        ]);
    } else {
        assert(v / 4096 < 16 && 16 <= v / 256 && 16 <= v / 16) by (nonlinear_arith)
            requires
                0x1000 <= v < 0x10000,
        ;
        assert(hex_seq(v / 256) =~= seq![hex_char(v / 4096), hex_char((v / 256) % 16)]);
        assert(hex_seq(v / 16) =~= seq![
            hex_char(v / 4096),
            hex_char((v / 256) % 16),
            hex_char((v / 16) % 16),
        ]);
        assert(hex_seq(v) =~= seq![
            hex_char(v / 4096),
            hex_char((v / 256) % 16),
            hex_char((v / 16) % 16),
            hex_char(v % 16),
        ]);
        assert(hex4pad(v) == hex_seq(v));
    }
}

proof fn lemma_rt_strbody(s: Seq<char>, i: int, cs: Seq<char>, acc: Seq<char>)
    requires
        forall|k: int| 0 <= k < cs.len() ==> (#[trigger] cs[k] as u32) < 0x10000,
        0 <= i,
        i + esc_all(cs).len() + 1 <= s.len(),
        s.subrange(i, i + esc_all(cs).len() + 1) == esc_all(cs) + seq!['"'],
    ensures
        sp_str_body(s, i, acc) == Ok::<(Seq<char>, int), ErrKind>(
            (acc + cs, i + esc_all(cs).len() + 1),
        ),
    decreases cs.len(),
{
    let full = esc_all(cs) + seq!['"'];
    assert forall|t: int| 0 <= t < full.len() implies s[i + t] == #[trigger] full[t] by {
        assert(s.subrange(i, i + esc_all(cs).len() + 1)[t] == s[i + t]);
    }
    if cs.len() == 0 {
        assert(esc_all(cs) =~= Seq::<char>::empty());
        assert(full[0] == '"');
        assert(s[i] == '"');
        assert(acc + cs =~= acc);
    } else {
        let c = cs[0];
        lemma_esc_all_first(cs);
        let ec = esc_seq(c);
        let rest = cs.drop_first();
        let tail_len = esc_all(rest).len() + 1;
        assert(esc_all(cs).len() == ec.len() + esc_all(rest).len());
        assert forall|t: int| 0 <= t < ec.len() implies s[i + t] == #[trigger] ec[t] by {
            assert(full[t] == esc_all(cs)[t]);
            assert(esc_all(cs)[t] == ec[t]);
        }
        assert forall|t: int|
            0 <= t < tail_len implies s.subrange(
                i + ec.len(),
                i + ec.len() + tail_len,
            )[t] == (esc_all(rest) + seq!['"'])[t] by {
            assert(s.subrange(i + ec.len(), i + ec.len() + tail_len)[t] == s[i + ec.len() + t]);
            assert(s[i + ec.len() + t] == full[ec.len() + t]);
            if t < esc_all(rest).len() {
                assert(full[ec.len() + t] == esc_all(cs)[ec.len() + t]);
                assert(esc_all(cs)[ec.len() + t] == esc_all(rest)[t]);
            } else {
                assert(full[ec.len() + t] == '"');
            }
        }
        assert(s.subrange(i + ec.len(), i + ec.len() + tail_len) =~= esc_all(rest) + seq!['"']);
        if c == '"' || c == '\t' || c == '\n' || c == '\r' || c == '\\' {
            assert(ec[0] == '\\' && s[i] == '\\');
            assert(s[i + 1] == ec[1]);
            let e = s[i + 1];
            assert(e != 'u');
            assert(esc_char(e) == c);
            lemma_rt_strbody(s, i + 2, rest, acc.push(c));
            assert(acc.push(c) + rest =~= acc + cs);
        } else if c as u32 >= 128 {
            let v = c as u32 as nat;
            lemma_hex4pad_bmp(v);
            assert(ec.len() == 6);
            assert(ec[0] == '\\' && ec[1] == 'u');
            assert(s[i] == '\\' && s[i + 1] == 'u');
            assert forall|t: int| 0 <= t < 4 implies s[i + 2 + t] == #[trigger] hex4pad(v)[t] by {
                assert(s[i + 2 + t] == ec[2 + t]);
                assert(ec[2 + t] == hex4pad(v)[t]);
            }
            assert(hex4_ok(s, i + 2));
            assert(hex4_val(s, i + 2) == v);
            vstd::utf8::char_is_scalar(c);
            assert(is_scalar(v));
            vstd::utf8::char_u32_cast(c, c as u32);
            assert(char_of(v) == c);
            lemma_rt_strbody(s, i + 6, rest, acc.push(c));
            assert(acc.push(c) + rest =~= acc + cs);
        } else {
            assert(ec =~= seq![c]);
            assert(ec[0] == c);
            assert(s[i] == ec[0]);
            assert(c != '"' && c != '\\');
            lemma_rt_strbody(s, i + 1, rest, acc.push(c));
            assert(acc.push(c) + rest =~= acc + cs);
        }
    }
}

/// Rendering on its own line only prepends the padding (or, for an object, a
/// boolean or `null`, changes nothing).
proof fn lemma_render_own_line(v: JsonVal, ind: nat)
    ensures
        sp_render(v, ind, true) == spaces(ind) + sp_render(v, ind, false) || sp_render(v, ind, true)
            == sp_render(v, ind, false),
{
    match v {
        JsonVal::Object(ps) => {
            assert(sp_render(v, ind, true) == sp_render(v, ind, false));
        },
        JsonVal::Bool(b) => {
            assert(sp_render(v, ind, true) == sp_render(v, ind, false));
        },
        JsonVal::Null => {
            assert(sp_render(v, ind, true) == sp_render(v, ind, false));
        },
        _ => {
            assert(sp_render(v, ind, true) =~= spaces(ind) + sp_render(v, ind, false));
        },
    }
}

/// The first character of a rendered value (without padding) starts its
/// token: it is never whitespace nor a delimiter.
proof fn lemma_core_first(v: JsonVal, ind: nat)
    requires
        stable(v),
    ensures
        sp_render(v, ind, false).len() >= 1,
        ({
            let f = sp_render(v, ind, false)[0];
            is_digit(f) || f == '{' || f == '"' || f == '[' || f == 't' || f == 'f' || f == 'n'
        }),
{
    let core = sp_render(v, ind, false);
    match v {
        JsonVal::Object(ps) => {
            reveal_strlit("{\n");
            assert(core[0] == '{');
        },
        JsonVal::Float(tok) => {
            assert(core =~= tok);
            let d = choose|d: int|
                1 <= d < tok.len() && tok[d] == '.' && (forall|k: int|
                    0 <= k < tok.len() && k != d ==> is_digit(#[trigger] tok[k]));
            assert(is_digit(tok[0]));
            assert(core[0] == tok[0]);
        },
        JsonVal::Integer(n) => {
            lemma_dec_seq_digits(n as nat);
            assert(core == dec_seq(n as nat));
            assert(is_digit(dec_seq(n as nat)[0]));
        },
        JsonVal::String(cs) => {
            assert(core =~= seq!['"'] + esc_all(cs) + seq!['"']);
            assert(core[0] == '"');
        },
        JsonVal::Array(vs) => {
            assert(core =~= seq!['['] + sp_render_elems(vs, 0, ind) + seq![']']);
            assert(core[0] == '[');
        },
        JsonVal::Bool(b) => {
            reveal_strlit("true");
            reveal_strlit("false");
            if b {
                assert(core[0] == 't');
            } else {
                assert(core[0] == 'f');
            }
        },
        JsonVal::Null => {
            reveal_strlit("null");
            assert(core[0] == 'n');
        },
    }
}

/// Parsing a value from the front of its own (unpadded) rendering succeeds,
/// yields the value itself, and stops exactly at the rendering's end —
/// provided the character right after it (if any) starts no token.
#[verifier::rlimit(100)]
#[verifier::spinoff_prover]
proof fn lemma_rt_core(s: Seq<char>, i: int, v: JsonVal, ind: nat)
    requires
        stable(v),
        0 <= i,
        i + sp_render(v, ind, false).len() <= s.len(),
        s.subrange(i, i + sp_render(v, ind, false).len()) == sp_render(v, ind, false),
        i + sp_render(v, ind, false).len() == s.len() || stopper(
            s[i + sp_render(v, ind, false).len()],
        ),
    ensures
        sp_any(s, i) == Ok::<(JsonVal, int), ErrKind>((v, i + sp_render(v, ind, false).len())),
    decreases v, 1int,
{
    let core = sp_render(v, ind, false);
    let e = i + core.len();
    lemma_core_first(v, ind);
    assert forall|t: int| 0 <= t < core.len() implies s[i + t] == #[trigger] core[t] by {
        assert(s.subrange(i, i + core.len())[t] == s[i + t]);
    }
    match v {
        JsonVal::Null => {
            reveal_strlit("null");
            reveal_strlit("true");
            reveal_strlit("false");
            assert(core == "null"@);
            assert(core[0] == 'n' && core[1] == 'u' && core[2] == 'l' && core[3] == 'l');
            assert forall|k: int| i <= k < e implies is_lower(#[trigger] s[k]) by {
                assert(s[k] == core[k - i]);
            }
            lemma_kw_run(s, i, e);
            let token = s.subrange(i, e);
            assert(token == core);
            assert(token[0] == 'n' && "true"@[0] == 't' && "false"@[0] == 'f');
            assert(token != "true"@ && token != "false"@);
        },
        JsonVal::Bool(b) => {
            reveal_strlit("null");
            reveal_strlit("true");
            reveal_strlit("false");
            if b {
                assert(core == "true"@);
                assert(core[0] == 't' && core[1] == 'r' && core[2] == 'u' && core[3] == 'e');
            } else {
                assert(core == "false"@);
                assert(core[0] == 'f' && core[1] == 'a' && core[2] == 'l' && core[3] == 's'
                    && core[4] == 'e');
            }
            assert forall|k: int| i <= k < e implies is_lower(#[trigger] s[k]) by {
                assert(s[k] == core[k - i]);
            }
            lemma_kw_run(s, i, e);
            let token = s.subrange(i, e);
            assert(token == core);
            if !b {
                assert(token[0] == 'f' && "true"@[0] == 't');
                assert(token != "true"@);
            }
        },
        JsonVal::Integer(n) => {
            lemma_dec_seq_digits(n as nat);
            lemma_dec_val_round(n as nat);
            assert(core == dec_seq(n as nat));
            assert forall|k: int| i <= k < e implies is_digit(#[trigger] s[k]) by {
                assert(s[k] == core[k - i]);
                assert(is_digit(dec_seq(n as nat)[k - i]));
            }
            lemma_digits_scan(s, i, e, false);
            assert(num_scan(s, e, false) == (e, false));
            assert(num_scan(s, i, false).0 == e && !num_scan(s, i, false).1);
            let token = s.subrange(i, e);
            assert(token == core);
            assert(dec_val(token) == n as nat);
            assert(sp_number(s, i) == Ok::<(JsonVal, int), ErrKind>((JsonVal::Integer(n), e)));
            assert(!is_ws(s[i]) && !(s[i] == '{') && !(s[i] == '"') && !(s[i] == '['));
        },
        JsonVal::Float(tok) => {
            assert(core =~= tok);
            let d = choose|d: int|
                1 <= d < tok.len() && tok[d] == '.' && (forall|k: int|
                    0 <= k < tok.len() && k != d ==> is_digit(#[trigger] tok[k]));
            assert(tok[d] == '.');
            assert(s[i + d] == core[d]);
            assert forall|k: int| i <= k < i + d implies is_digit(#[trigger] s[k]) by {
                assert(s[k] == core[k - i]);
                assert(is_digit(tok[k - i]));
            }
            assert forall|k: int| i + d + 1 <= k < e implies is_digit(#[trigger] s[k]) by {
                assert(s[k] == core[k - i]);
                assert(is_digit(tok[k - i]));
            }
            lemma_digits_scan(s, i, i + d, false);
            assert(!is_digit('.'));
            assert(num_scan(s, i + d, false) == num_scan(s, i + d + 1, true));
            lemma_digits_scan(s, i + d + 1, e, true);
            assert(num_scan(s, e, true) == (e, true));
            assert(num_scan(s, i, false).0 == e && num_scan(s, i, false).1);
            let token = s.subrange(i, e);
            assert(token == core && token == tok);
            assert(sp_number(s, i) == Ok::<(JsonVal, int), ErrKind>((JsonVal::Float(tok), e)));
            assert(is_digit(s[i]));
            assert(!is_ws(s[i]) && !(s[i] == '{') && !(s[i] == '"') && !(s[i] == '['));
        },
        JsonVal::String(cs) => {
            assert(core =~= seq!['"'] + (esc_all(cs) + seq!['"']));
            assert(core[0] == '"');
            assert(s[i] == '"');
            assert(core.len() == esc_all(cs).len() + 2);
            assert forall|t: int|
                0 <= t < esc_all(cs).len() + 1 implies s.subrange(i + 1, e)[t] == (esc_all(cs)
                + seq!['"'])[t] by {
                assert(s.subrange(i + 1, e)[t] == s[i + 1 + t]);
                assert(s[i + 1 + t] == core[1 + t]);
                assert(core[1 + t] == (esc_all(cs) + seq!['"'])[t]);
            }
            assert(s.subrange(i + 1, e) =~= esc_all(cs) + seq!['"']);
            lemma_rt_strbody(s, i + 1, cs, Seq::empty());
            assert(Seq::<char>::empty() + cs =~= cs);
            assert(sp_str_body(s, i + 1, Seq::empty()) == Ok::<(Seq<char>, int), ErrKind>(
                (cs, e),
            ));
        },
        JsonVal::Object(ps) => {
            reveal_strlit("{\n");
            let pp = sp_render_pairs(ps, 0, ind + 1);
            let rr = pp + seq!['\n'] + spaces(ind) + seq!['}'];
            assert(core =~= "{\n"@ + rr);
            assert(core[0] == '{');
            assert(s[i] == '{');
            assert(core[1] == '\n');
            assert(s[i + 1] == '\n');
            assert forall|t: int| 0 <= t < rr.len() implies s.subrange(i + 2, e)[t] == rr[t] by {
                assert(s.subrange(i + 2, e)[t] == s[i + 2 + t]);
                assert(s[i + 2 + t] == core[2 + t]);
                assert(core[2 + t] == ("{\n"@ + rr)[2 + t]);
            }
            assert(s.subrange(i + 2, e) =~= rr);
            assert(Seq::<(JsonVal, JsonVal)>::empty() =~= ps.subrange(0, 0));
            assert(is_ws('\n'));
            lemma_rt_pairs(s, i + 1, i + 2, ps, 0, ind, Seq::empty());
            assert(sp_obj_items(s, i + 1, Seq::empty()) == Ok::<(JsonVal, int), ErrKind>(
                (JsonVal::Object(ps), e),
            ));
        },
        JsonVal::Array(vs) => {
            let ee = sp_render_elems(vs, 0, ind);
            let rr = ee + seq![']'];
            assert(core =~= seq!['['] + rr);
            assert(core[0] == '[');
            assert(s[i] == '[');
            assert forall|t: int| 0 <= t < rr.len() implies s.subrange(i + 1, e)[t] == rr[t] by {
                assert(s.subrange(i + 1, e)[t] == s[i + 1 + t]);
                assert(s[i + 1 + t] == core[1 + t]);
                assert(core[1 + t] == (seq!['['] + rr)[1 + t]);
            }
            assert(s.subrange(i + 1, e) =~= rr);
            assert(Seq::<JsonVal>::empty() =~= vs.subrange(0, 0));
            lemma_rt_elems(s, i + 1, i + 1, vs, 0, ind, Seq::empty());
            assert(sp_arr_items(s, i + 1, Seq::empty()) == Ok::<(JsonVal, int), ErrKind>(
                (JsonVal::Array(vs), e),
            ));
        },
    }
}

/// Parsing one pair of an object: from the whitespace run `[p, q)` before
/// the pair's text, the object parser reads the key, the colon and the
/// value, and stands just past the value with the pair appended.
#[verifier::rlimit(100)]
#[verifier::spinoff_prover]
proof fn lemma_rt_pair_head(
    s: Seq<char>,
    p: int,
    q: int,
    ps: Seq<(JsonVal, JsonVal)>,
    idx: int,
    ind: nat,
    acc: Seq<(JsonVal, JsonVal)>,
)
    requires
        stable_pairs(ps),
        0 <= p <= q <= s.len(),
        forall|k: int| p <= k < q ==> is_ws(#[trigger] s[k]),
        0 <= idx < ps.len(),
        ({
            let rr = sp_render_pairs(ps, idx, ind + 1) + seq!['\n'] + spaces(ind) + seq!['}'];
            q + rr.len() <= s.len() && s.subrange(q, q + rr.len()) == rr
        }),
        acc == ps.subrange(0, idx),
    ensures
        sp_obj_items(s, p, acc) == sp_obj_after(
            s,
            q + sp_render(ps[idx].0, ind + 1, true).len() + 2 + sp_render(
                ps[idx].1,
                ind + 1,
                false,
            ).len(),
            acc.push(ps[idx]),
        ),
    decreases ps, 1int, 0int,
{
    let pp = sp_render_pairs(ps, idx, ind + 1);
    let rr = pp + seq!['\n'] + spaces(ind) + seq!['}'];
    lemma_spaces_ws(ind);
    assert forall|t: int| 0 <= t < rr.len() implies s[q + t] == #[trigger] rr[t] by {
        assert(s.subrange(q, q + rr.len())[t] == s[q + t]);
    }
    lemma_obj_items_ws(s, p, acc);
    let k0 = ps[idx].0;
    let v0 = ps[idx].1;
    lemma_stable_pairs_index(ps, idx);
    let ck = sp_render(k0, ind + 1, true);
    let kcore = sp_render(k0, ind + 1, false);
    let vcore = sp_render(v0, ind + 1, false);
    let sep: Seq<char> = if idx + 1 < ps.len() {
        ", \n"@
    } else {
        Seq::<char>::empty()
    };
    let prest = sp_render_pairs(ps, idx + 1, ind + 1);
    assert(pp == ck + ": "@ + vcore + sep + prest);
    lemma_render_own_line(k0, ind + 1);
    lemma_core_first(k0, ind + 1);
    lemma_core_first(v0, ind + 1);
    reveal_strlit(": ");
    reveal_strlit(", \n");
    // every character of this pair's text, seen from q
    assert forall|u: int| 0 <= u < pp.len() implies s[q + u] == #[trigger] pp[u] by {
        assert(rr[u] == pp[u]);
    }
    let keystart = q + ck.len() - kcore.len();
    if ck == spaces(ind + 1) + kcore {
        lemma_spaces_ws(ind + 1);
        assert(ck.len() == ind + 1 + kcore.len());
        assert forall|k: int| p <= k < keystart implies is_ws(#[trigger] s[k]) by {
            if q <= k {
                assert(s[k] == pp[k - q]);
                assert(pp[k - q] == ck[k - q]);
                assert(ck[k - q] == spaces(ind + 1)[k - q]);
            }
        }
        assert forall|u: int| 0 <= u < kcore.len() implies s[keystart + u] == #[trigger] kcore[u] by {
            assert(s[keystart + u] == pp[keystart + u - q]);
            assert(pp[keystart + u - q] == ck[keystart + u - q]);
            assert(ck[keystart + u - q] == kcore[u]);
        }
    } else {
        assert(ck == kcore);
        assert(keystart == q);
        assert forall|u: int| 0 <= u < kcore.len() implies s[keystart + u] == #[trigger] kcore[u] by {
            assert(s[keystart + u] == pp[keystart + u - q]);
            assert(pp[keystart + u - q] == ck[u]);
        }
    }
    assert(!is_ws(s[keystart]) && s[keystart] != '}') by {
        assert(s[keystart] == kcore[0]);
    }
    lemma_skip_ws_run(s, p, keystart);
    let keyend = q + ck.len();
    assert(s[keyend] == pp[ck.len() as int] && pp[ck.len() as int] == ':');
    assert(stopper(':'));
    assert(s.subrange(keystart, keystart + kcore.len()) =~= kcore);
    lemma_rt_core(s, keystart, k0, ind + 1);
    assert(sp_any(s, keystart) == Ok::<(JsonVal, int), ErrKind>((k0, keyend)));
    assert(sp_obj_items(s, keystart, acc) == sp_obj_colon(
        s,
        adv(s, keystart, keyend),
        acc,
        k0,
    ));
    assert(adv(s, keystart, keyend) == keyend);
    assert(!is_ws(':'));
    let valstart = keyend + 2;
    assert(s[keyend + 1] == pp[ck.len() as int + 1] && pp[ck.len() as int + 1] == ' ');
    assert forall|u: int| 0 <= u < vcore.len() implies s[valstart + u] == #[trigger] vcore[u] by {
        assert(s[valstart + u] == pp[ck.len() as int + 2 + u]);
        assert(pp[ck.len() as int + 2 + u] == vcore[u]);
    }
    let valend = valstart + vcore.len();
    assert(sp_obj_colon(s, keyend, acc, k0) == sp_obj_value(s, keyend + 1, acc, k0));
    lemma_any_ws(s, keyend + 1);
    assert(!is_ws(s[valstart])) by {
        assert(s[valstart] == vcore[0]);
    }
    lemma_skip_ws_run(s, keyend + 1, valstart);
    assert(s.subrange(valstart, valend) =~= vcore);
    if idx + 1 < ps.len() {
        assert(s[valend] == pp[ck.len() as int + 2 + vcore.len() as int] && pp[ck.len() as int + 2 + vcore.len() as int]
            == ',');
        assert(stopper(','));
    } else {
        assert(sep.len() == 0);
        assert(valend == q + pp.len());
        assert(s[valend] == rr[pp.len() as int] && rr[pp.len() as int] == '\n');
        assert(stopper('\n'));
    }
    lemma_rt_core(s, valstart, v0, ind + 1);
    assert(sp_any(s, keyend + 1) == Ok::<(JsonVal, int), ErrKind>((v0, valend)));
    let acc2 = acc.push((k0, v0));
    assert(acc2 =~= ps.subrange(0, idx + 1));
    assert(sp_obj_value(s, keyend + 1, acc, k0) == sp_obj_after(
        s,
        adv(s, keyend + 1, valend),
        acc2,
    ));
    assert(adv(s, keyend + 1, valend) == valend);
    assert(acc.push(ps[idx]) == acc2);
}

/// Parsing the pairs of an object succeeds over their rendering: from any
/// whitespace run `[p, q)` before the remaining pairs' text, the object
/// parser gathers exactly the remaining pairs and stops just past the
/// closing brace.
#[verifier::rlimit(100)]
#[verifier::spinoff_prover]
proof fn lemma_rt_pairs(
    s: Seq<char>,
    p: int,
    q: int,
    ps: Seq<(JsonVal, JsonVal)>,
    idx: int,
    ind: nat,
    acc: Seq<(JsonVal, JsonVal)>,
)
    requires
        stable_pairs(ps),
        0 <= p <= q <= s.len(),
        forall|k: int| p <= k < q ==> is_ws(#[trigger] s[k]),
        0 <= idx <= ps.len(),
        ({
            let rr = sp_render_pairs(ps, idx, ind + 1) + seq!['\n'] + spaces(ind) + seq!['}'];
            q + rr.len() <= s.len() && s.subrange(q, q + rr.len()) == rr
        }),
        acc == ps.subrange(0, idx),
    ensures
        ({
            let rr = sp_render_pairs(ps, idx, ind + 1) + seq!['\n'] + spaces(ind) + seq!['}'];
            sp_obj_items(s, p, acc) == Ok::<(JsonVal, int), ErrKind>(
                (JsonVal::Object(ps), q + rr.len()),
            )
        }),
    decreases ps, 2int, ps.len() - idx,
{
    let pp = sp_render_pairs(ps, idx, ind + 1);
    let rr = pp + seq!['\n'] + spaces(ind) + seq!['}'];
    lemma_spaces_ws(ind);
    assert forall|t: int| 0 <= t < rr.len() implies s[q + t] == #[trigger] rr[t] by {
        assert(s.subrange(q, q + rr.len())[t] == s[q + t]);
    }
    lemma_obj_items_ws(s, p, acc);
    if idx == ps.len() {
        assert(pp =~= Seq::<char>::empty());
        assert(rr =~= seq!['\n'] + spaces(ind) + seq!['}']);
        assert(rr.len() == ind + 2);
        let b = q + 1 + ind;
        assert forall|k: int| p <= k < b implies is_ws(#[trigger] s[k]) by {
            if q <= k {
                assert(s[k] == rr[k - q]);
                if k == q {
                    assert(rr[0] == '\n');
                } else {
                    assert(rr[k - q] == spaces(ind)[k - q - 1]);
                }
            }
        }
        assert(s[b] == rr[1 + ind as int] && rr[1 + ind as int] == '}');
        lemma_skip_ws_run(s, p, b);
        assert(acc =~= ps);
        assert(sp_obj_items(s, b, acc) == Ok::<(JsonVal, int), ErrKind>(
            (JsonVal::Object(ps), b + 1),
        ));
    } else {
        lemma_rt_pair_head(s, p, q, ps, idx, ind, acc);
        let k0 = ps[idx].0;
        let v0 = ps[idx].1;
        let ck = sp_render(k0, ind + 1, true);
        let vcore = sp_render(v0, ind + 1, false);
        let sep: Seq<char> = if idx + 1 < ps.len() {
            ", \n"@
        } else {
            Seq::<char>::empty()
        };
        let prest = sp_render_pairs(ps, idx + 1, ind + 1);
        assert(pp == ck + ": "@ + vcore + sep + prest);
        reveal_strlit(", \n");
        reveal_strlit(": ");
        assert(pp.len() == ck.len() + 2 + vcore.len() + sep.len() + prest.len());
        assert forall|u: int| 0 <= u < pp.len() implies s[q + u] == #[trigger] pp[u] by {
            assert(s[q + u] == rr[u]);
            assert(rr[u] == pp[u]);
        }
        let valend = q + ck.len() + 2 + vcore.len();
        let acc2 = acc.push(ps[idx]);
        assert(acc2 =~= ps.subrange(0, idx + 1));
        assert(sp_obj_items(s, p, acc) == sp_obj_after(s, valend, acc2));
        let rr2 = prest + seq!['\n'] + spaces(ind) + seq!['}'];
        assert(rr.len() == pp.len() + 1 + ind + 1);
        assert(rr2.len() == prest.len() + 1 + ind + 1);
        if idx + 1 < ps.len() {
            assert(sep.len() == 3);
            let o: int = ck.len() as int + 2 + vcore.len() as int;
            assert(valend == q + o);
            assert(s[q + o] == pp[o] && s[q + o + 1] == pp[o + 1] && s[q + o + 2] == pp[o + 2]);
            assert(pp[o] == sep[0] && pp[o + 1] == sep[1] && pp[o + 2] == sep[2]);
            assert(sep[0] == ',' && sep[1] == ' ' && sep[2] == '\n');
            assert(s[valend] == ',');
            assert(sp_obj_after(s, valend, acc2) == sp_obj_items(s, valend + 1, acc2));
            let q2 = valend + 3;
            let off = ck.len() + 2 + vcore.len() + 3;
            assert(q2 == q + off);
            assert(pp.len() == off + prest.len());
            assert forall|t: int|
                0 <= t < rr2.len() implies s.subrange(q2, q2 + rr2.len())[t] == rr2[t] by {
                assert(s.subrange(q2, q2 + rr2.len())[t] == s[q2 + t]);
                assert(s[q2 + t] == rr[off + t]);
                if t < prest.len() {
                    assert(rr[off + t] == pp[off + t]);
                    assert(pp[off + t] == prest[t]);
                    assert(rr2[t] == prest[t]);
                } else {
                    assert(rr[off + t] == rr2[t]);
                }
            }
            assert(s.subrange(q2, q2 + rr2.len()) =~= rr2);
            lemma_rt_pairs(s, valend + 1, q2, ps, idx + 1, ind, acc2);
            assert(q2 + rr2.len() == q + rr.len());
        } else {
            assert(prest =~= Seq::<char>::empty());
            let b = valend + 1 + ind;
            assert forall|k: int| valend <= k < b implies is_ws(#[trigger] s[k]) by {
                assert(s[k] == rr[k - q]);
                if k == valend {
                    assert(rr[pp.len() as int] == '\n');
                } else {
                    assert(rr[k - q] == spaces(ind)[k - q - pp.len() as int - 1]);
                }
            }
            assert(s[b] == rr[pp.len() as int + 1 + ind as int] && rr[pp.len() as int + 1 + ind as int] == '}');
            lemma_obj_after_ws(s, valend, acc2);
            lemma_skip_ws_run(s, valend, b);
            assert(acc2 =~= ps);
            assert(sp_obj_after(s, b, acc2) == Ok::<(JsonVal, int), ErrKind>(
                (JsonVal::Object(ps), b + 1),
            ));
            assert(b + 1 == q + rr.len());
        }
    }
}

/// Parsing the elements of an array succeeds over their rendering: from any
/// whitespace run `[p, q)` before the remaining elements' text, the array
/// parser gathers exactly the remaining elements and stops just past the
/// closing bracket.
#[verifier::rlimit(100)]
#[verifier::spinoff_prover]
proof fn lemma_rt_elems(
    s: Seq<char>,
    p: int,
    q: int,
    vs: Seq<JsonVal>,
    idx: int,
    ind: nat,
    acc: Seq<JsonVal>,
)
    requires
        stable_elems(vs),
        0 <= p <= q <= s.len(),
        forall|k: int| p <= k < q ==> is_ws(#[trigger] s[k]),
        0 <= idx <= vs.len(),
        ({
            let rr = sp_render_elems(vs, idx, ind) + seq![']'];
            q + rr.len() <= s.len() && s.subrange(q, q + rr.len()) == rr
        }),
        acc == vs.subrange(0, idx),
    ensures
        ({
            let rr = sp_render_elems(vs, idx, ind) + seq![']'];
            sp_arr_items(s, p, acc) == Ok::<(JsonVal, int), ErrKind>(
                (JsonVal::Array(vs), q + rr.len()),
            )
        }),
    decreases vs, 2int, vs.len() - idx,
{
    let ee = sp_render_elems(vs, idx, ind);
    let rr = ee + seq![']'];
    assert forall|t: int| 0 <= t < rr.len() implies s[q + t] == #[trigger] rr[t] by {
        assert(s.subrange(q, q + rr.len())[t] == s[q + t]);
    }
    lemma_arr_items_ws(s, p, acc);
    if idx == vs.len() {
        assert(ee =~= Seq::<char>::empty());
        assert(rr[0] == ']');
        assert(s[q] == ']');
        assert(!is_ws(']'));
        lemma_skip_ws_run(s, p, q);
        assert(acc =~= vs);
        assert(sp_arr_items(s, q, acc) == Ok::<(JsonVal, int), ErrKind>(
            (JsonVal::Array(vs), q + 1),
        ));
    } else {
        let v0 = vs[idx];
        lemma_stable_elems_index(vs, idx);
        lemma_core_first(v0, ind);
        let vcore = sp_render(v0, ind, false);
        let sep: Seq<char> = if idx + 1 < vs.len() {
            ", "@
        } else {
            Seq::<char>::empty()
        };
        let erest = sp_render_elems(vs, idx + 1, ind);
        assert(ee == vcore + sep + erest);
        reveal_strlit(", ");
        assert forall|u: int| 0 <= u < ee.len() implies s[q + u] == #[trigger] ee[u] by {
            assert(rr[u] == ee[u]);
        }
        assert forall|u: int| 0 <= u < vcore.len() implies s[q + u] == #[trigger] vcore[u] by {
            assert(ee[u] == vcore[u]);
        }
        assert(!is_ws(s[q]) && s[q] != ']' && s[q] != ',') by {
            assert(s[q] == vcore[0]);
        }
        lemma_skip_ws_run(s, p, q);
        let eend = q + vcore.len();
        if idx + 1 < vs.len() {
            assert(s[eend] == ee[vcore.len() as int] && ee[vcore.len() as int] == ',');
            assert(stopper(','));
        } else {
            assert(eend == q + ee.len());
            assert(s[eend] == rr[ee.len() as int] && rr[ee.len() as int] == ']');
            assert(stopper(']'));
        }
        assert(s.subrange(q, eend) =~= vcore);
        lemma_rt_core(s, q, v0, ind);
        assert(sp_any(s, q) == Ok::<(JsonVal, int), ErrKind>((v0, eend)));
        let acc2 = acc.push(v0);
        assert(acc2 =~= vs.subrange(0, idx + 1));
        assert(sp_arr_items(s, q, acc) == sp_arr_items(s, adv(s, q, eend), acc2));
        assert(adv(s, q, eend) == eend);
        let rr2 = erest + seq![']'];
        if idx + 1 < vs.len() {
            assert(s[eend] == ',');
            let q2 = eend + 2;
            assert(s[eend + 1] == ee[vcore.len() as int + 1] && ee[vcore.len() as int + 1] == ' ');
            assert(is_ws(' '));
            let off = vcore.len() + 2;
            assert(ee.len() == off + erest.len());
            assert forall|t: int|
                0 <= t < rr2.len() implies s.subrange(q2, q2 + rr2.len())[t] == rr2[t] by {
                assert(s.subrange(q2, q2 + rr2.len())[t] == s[q2 + t]);
                assert(s[q2 + t] == rr[off + t]);
                if t < erest.len() {
                    assert(rr[off + t] == ee[off + t]);
                    assert(ee[off + t] == erest[t]);
                    assert(rr2[t] == erest[t]);
                } else {
                    assert(rr[off + t] == rr2[t]);
                }
            }
            assert(s.subrange(q2, q2 + rr2.len()) =~= rr2);
            assert(sp_arr_items(s, eend, acc2) == sp_arr_items(s, eend + 1, acc2));
            lemma_rt_elems(s, eend + 1, q2, vs, idx + 1, ind, acc2);
            assert(q2 + rr2.len() == q + rr.len());
        } else {
            assert(s[eend] == ']');
            assert(acc2 =~= vs);
            assert(sp_arr_items(s, eend, acc2) == Ok::<(JsonVal, int), ErrKind>(
                (JsonVal::Array(vs), eend + 1),
            ));
            assert(eend + 1 == q + rr.len());
        }
    }
}

/// ROUND TRIP: rendering any stable value tree and parsing the text back
/// succeeds and yields the very same tree.  (`stable` admits every tree
/// except those whose rendering the parser is documented not to re-read:
/// negative integers, malformed float literals, and string characters beyond
/// the four-hex-digit escapes.)
pub proof fn lemma_parse_render_round_trip(v: JsonVal)
    requires
        stable(v),
    ensures
        sp_parse(sp_render(v, 0, true)) == Ok::<JsonVal, ErrKind>(v),
{
    let t = sp_render(v, 0, true);
    lemma_render_own_line(v, 0);
    assert(spaces(0) =~= Seq::<char>::empty());
    assert(t == sp_render(v, 0, false)) by {
        if t == spaces(0) + sp_render(v, 0, false) {
            assert(spaces(0) + sp_render(v, 0, false) =~= sp_render(v, 0, false));
        }
    }
    assert(t.subrange(0, t.len() as int) =~= t);
    lemma_rt_core(t, 0, v, 0);
}

} // verus!
