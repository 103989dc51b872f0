use vstd::prelude::*;
use crate::json_object::JSONObject;
use crate::json_object::JsonVal;
use crate::json_object::model_pairs;
use crate::json_object::lemma_model_pairs;
use crate::json_object::lemma_model_elems;
use crate::text::push_char;
use crate::text::append_str;
use crate::text::append_vec;
use crate::text::chars_to_string;

verus! {

broadcast use
    vstd::seq::axiom_seq_index_decreases,
    vstd::std_specs::vec::axiom_vec_index_decreases,
    vstd::std_specs::vec::axiom_vec_decreases_to_view;

// ---------------------------------------------------------------------------
// The specification renderer
// ---------------------------------------------------------------------------

/// `n` space characters: the padding of indent level `n` (one space per
/// level).
pub open spec fn spaces(n: nat) -> Seq<char>
    decreases n,
{
    if n == 0 {
        Seq::empty()
    } else {
        spaces((n - 1) as nat).push(' ')
    }
}

/// The character of the decimal digit `v`.
pub open spec fn digit_char(v: nat) -> char {
    ((48 + v) as u32) as char
}

/// The decimal digits of `v`, most significant first.
pub open spec fn dec_seq(v: nat) -> Seq<char>
    decreases v,
{
    if v < 10 {
        seq![digit_char(v)]
    } else {
        dec_seq(v / 10).push(digit_char(v % 10))
    }
}

/// The decimal text of a signed integer: a leading `-` for a negative one.
pub open spec fn int_seq(n: int) -> Seq<char> {
    if n < 0 {
        seq!['-'] + dec_seq((-n) as nat)
    } else {
        dec_seq(n as nat)
    }
}

/// The character of the hexadecimal digit `v`, lowercase.
pub open spec fn hex_char(v: nat) -> char {
    if v < 10 {
        digit_char(v)
    } else {
        ((87 + v) as u32) as char
    }
}

/// The hexadecimal digits of `v`, lowercase, most significant first.
pub open spec fn hex_seq(v: nat) -> Seq<char>
    decreases v,
{
    if v < 16 {
        seq![hex_char(v)]
    } else {
        hex_seq(v / 16).push(hex_char(v % 16))
    }
}

/// The hexadecimal digits of `v`, zero-padded on the left to at least four
/// digits.
pub open spec fn hex4pad(v: nat) -> Seq<char> {
    if v < 0x10 {
        seq!['0', '0', '0'] + hex_seq(v)
    } else if v < 0x100 {
        seq!['0', '0'] + hex_seq(v)
    } else if v < 0x1000 {
        seq!['0'] + hex_seq(v)
    } else {
        hex_seq(v)
    }
}

/// The rendering of one character inside a string literal: the five named
/// escapes come first, any other non-ASCII character becomes a `\u` escape
/// over its scalar value, and the rest pass through.
pub open spec fn esc_seq(c: char) -> Seq<char> {
    if c == '"' {
        seq!['\\', '"']
    } else if c == '\t' {
        seq!['\\', 't']
    } else if c == '\n' {
        seq!['\\', 'n']
    } else if c == '\r' {
        seq!['\\', 'r']
    } else if c == '\\' {
        seq!['\\', '\\']
    } else if c as u32 >= 128 {
        seq!['\\', 'u'] + hex4pad(c as u32 as nat)
    } else {
        seq![c]
    }
}

/// The rendering of a whole string body, character by character.
pub open spec fn esc_all(cs: Seq<char>) -> Seq<char>
    decreases cs,
{
    if cs.len() == 0 {
        Seq::empty()
    } else {
        esc_all(cs.drop_last()) + esc_seq(cs.last())
    }
}

/// The text of one value at indent level `indent`; `own_line` says whether it
/// begins a new line, so that its padding must be emitted first.  An object
/// spreads its pairs over lines, one level deeper; an array stays on one
/// line; booleans, `null` and an object's opening brace ignore the padding.
pub open spec fn sp_render(v: JsonVal, indent: nat, own_line: bool) -> Seq<char>
    decreases v, 1int,
{
    let padding = if own_line {
        spaces(indent)
    } else {
        Seq::<char>::empty()
    };
    match v {
        JsonVal::Object(ps) => "{\n"@ + sp_render_pairs(ps, 0, indent + 1) + seq!['\n'] + spaces(
            indent,
        ) + seq!['}'],
        JsonVal::Float(tok) => padding + tok,
        JsonVal::Integer(n) => padding + int_seq(n as int),
        JsonVal::String(cs) => padding + seq!['"'] + esc_all(cs) + seq!['"'],
        JsonVal::Array(vs) => padding + seq!['['] + sp_render_elems(vs, 0, indent) + seq![']'],
        JsonVal::Bool(b) => if b {
            "true"@
        } else {
            "false"@
        },
        JsonVal::Null => "null"@,
    }
}

/// The text of an object's pairs from index `i` on: each key on its own line
/// at level `ind`, its value inline after `: `, and `, ` plus a newline
/// between pairs.
pub open spec fn sp_render_pairs(ps: Seq<(JsonVal, JsonVal)>, i: int, ind: nat) -> Seq<char>
    decreases ps, 2int, ps.len() - i,
{
    if 0 <= i < ps.len() {
        sp_render(ps[i].0, ind, true) + ": "@ + sp_render(ps[i].1, ind, false) + (if i + 1
            < ps.len() {
            ", \n"@
        } else {
            Seq::<char>::empty()
        }) + sp_render_pairs(ps, i + 1, ind)
    } else {
        Seq::empty()
    }
}

/// The text of an array's elements from index `i` on: all inline at the
/// array's own level, `, ` between elements.
pub open spec fn sp_render_elems(vs: Seq<JsonVal>, i: int, ind: nat) -> Seq<char>
    decreases vs, 2int, vs.len() - i,
{
    if 0 <= i < vs.len() {
        sp_render(vs[i], ind, false) + (if i + 1 < vs.len() {
            ", "@
        } else {
            Seq::<char>::empty()
        }) + sp_render_elems(vs, i + 1, ind)
    } else {
        Seq::empty()
    }
}

// ---------------------------------------------------------------------------
// The executable renderer
// ---------------------------------------------------------------------------

pub proof fn lemma_spaces_len(n: nat)
    ensures
        spaces(n).len() == n,
    decreases n,
{
    if n > 0 {
        lemma_spaces_len((n - 1) as nat);
    }
}

fn digit_char_exec(v: u32) -> (c: char)
    requires
        v < 10,
    ensures
        c == digit_char(v as nat),
{
    let b: u8 = (48 + v) as u8;
    let c = b as char;
    proof {
        vstd::utf8::char_u32_cast(c, (48 + v) as u32);
    }
    c
}

fn hex_char_exec(v: u32) -> (c: char)
    requires
        v < 16,
    ensures
        c == hex_char(v as nat),
{
    if v < 10 {
        digit_char_exec(v)
    } else {
        let b: u8 = (87 + v) as u8;
        let c = b as char;
        proof {
            vstd::utf8::char_u32_cast(c, (87 + v) as u32);
        }
        c
    }
}

fn append_dec(out: &mut Vec<char>, v: u64)
    ensures
        final(out)@ == old(out)@ + dec_seq(v as nat),
    decreases v,
{
    if v < 10 {
        let c = digit_char_exec(v as u32);
        push_char(out, c);
    } else {
        append_dec(out, v / 10);
        let c = digit_char_exec((v % 10) as u32);
        push_char(out, c);
        proof {
            assert(out@ =~= old(out)@ + dec_seq(v as nat));
        }
    }
}

fn append_int(out: &mut Vec<char>, n: i64)
    ensures
        final(out)@ == old(out)@ + int_seq(n as int),
{
    if n >= 0 {
        append_dec(out, n as u64);
    } else {
        push_char(out, '-');
        let mag: u64 = (-(n as i128)) as u64;
        proof {
            assert(mag as int == -(n as int));
        }
        append_dec(out, mag);
        proof {
            assert(out@ =~= old(out)@ + int_seq(n as int));
        }
    }
}

fn append_hex(out: &mut Vec<char>, v: u32)
    ensures
        final(out)@ == old(out)@ + hex_seq(v as nat),
    decreases v,
{
    if v < 16 {
        let c = hex_char_exec(v);
        push_char(out, c);
    } else {
        append_hex(out, v / 16);
        let c = hex_char_exec(v % 16);
        push_char(out, c);
        proof {
            assert(out@ =~= old(out)@ + hex_seq(v as nat));
        }
    }
}

fn append_esc(out: &mut Vec<char>, c: char)
    ensures
        final(out)@ == old(out)@ + esc_seq(c),
{
    if c == '"' {
        push_char(out, '\\');
        push_char(out, '"');
        proof {
            assert(out@ =~= old(out)@ + esc_seq(c));
        }
    } else if c == '\t' {
        push_char(out, '\\');
        push_char(out, 't');
        proof {
            assert(out@ =~= old(out)@ + esc_seq(c));
        }
    } else if c == '\n' {
        push_char(out, '\\');
        push_char(out, 'n');
        proof {
            assert(out@ =~= old(out)@ + esc_seq(c));
        }
    } else if c == '\r' {
        push_char(out, '\\');
        push_char(out, 'r');
        proof {
            assert(out@ =~= old(out)@ + esc_seq(c));
        }
    } else if c == '\\' {
        push_char(out, '\\');
        push_char(out, '\\');
        proof {
            assert(out@ =~= old(out)@ + esc_seq(c));
        }
    } else {
        let u = c as u32;
        if u >= 128 {
            push_char(out, '\\');
            push_char(out, 'u');
            if u < 0x10 {
                push_char(out, '0');
                push_char(out, '0');
                push_char(out, '0');
                append_hex(out, u);
            } else if u < 0x100 {
                push_char(out, '0');
                push_char(out, '0');
                append_hex(out, u);
            } else if u < 0x1000 {
                push_char(out, '0');
                append_hex(out, u);
            } else {
                append_hex(out, u);
            }
            proof {
                assert(out@ =~= old(out)@ + esc_seq(c));
            }
        } else {
            push_char(out, c);
        }
    }
}

#[verifier::loop_isolation(false)]
#[verifier::rlimit(60)]
fn render_into(v: &JSONObject, pad: &mut Vec<char>, own_line: bool, out: &mut Vec<char>)
    requires
        old(pad)@ == spaces(old(pad)@.len()),
    ensures
        final(pad)@ == old(pad)@,
        final(out)@ == old(out)@ + sp_render(v.model(), old(pad)@.len(), own_line),
    decreases v,
{
    let ghost ind = old(pad)@.len();
    let ghost base = out@;
    match v {
        JSONObject::Object { children } => {
            proof {
                lemma_model_pairs(children@);
            }
            let ghost ps = model_pairs(children@);
            append_str(out, "{\n");
            pad.push(' ');
            proof {
                assert(pad@ == spaces(ind + 1));
            }
            let ghost base2 = out@;
            let n = children.len();
            let mut k: usize = 0;
            while k < n
                invariant
                    k <= n,
                    n == children@.len(),
                    ps == model_pairs(children@),
                    ps.len() == n,
                    forall|t: int|
                        0 <= t < n ==> ps[t] == (
                            children@[t].0.model(),
                            children@[t].1.model(),
                        ),
                    pad@ == spaces(ind + 1),
                    pad@.len() == ind + 1,
                    base2 + sp_render_pairs(ps, 0, ind + 1) == out@ + sp_render_pairs(
                        ps,
                        k as int,
                        ind + 1,
                    ),
                decreases n - k,
            {
                proof {
                    assert(decreases_to!(*v => *children));
                    assert(decreases_to!(*children => children@));
                    assert(decreases_to!(children@ => children@[k as int]));
                    assert(decreases_to!(*v => children@[k as int].0));
                    assert(decreases_to!(*v => children@[k as int].1));
                }
                render_into(&children[k].0, pad, true, out);
                append_str(out, ": ");
                render_into(&children[k].1, pad, false, out);
                if k + 1 < n {
                    append_str(out, ", \n");
                }
                proof {
                    assert(sp_render_pairs(ps, k as int, ind + 1) == sp_render(
                        ps[k as int].0,
                        ind + 1,
                        true,
                    ) + ": "@ + sp_render(ps[k as int].1, ind + 1, false) + (if k as int + 1
                        < ps.len() {
                        ", \n"@
                    } else {
                        Seq::<char>::empty()
                    }) + sp_render_pairs(ps, k as int + 1, ind + 1));
                    assert(base2 + sp_render_pairs(ps, 0, ind + 1) =~= out@ + sp_render_pairs(
                        ps,
                        k as int + 1,
                        ind + 1,
                    ));
                }
                k = k + 1;
            }
            proof {
                assert(sp_render_pairs(ps, n as int, ind + 1) =~= Seq::<char>::empty());
                assert(out@ =~= base2 + sp_render_pairs(ps, 0, ind + 1));
            }
            let _popped = pad.pop();
            proof {
                assert(pad@ =~= spaces(ind));
            }
            push_char(out, '\n');
            append_vec(out, pad);
            push_char(out, '}');
            proof {
                assert(out@ =~= base + sp_render(v.model(), ind, own_line));
            }
        },
        JSONObject::Float { value } => {
            if own_line {
                append_vec(out, pad);
            }
            append_str(out, value.as_str());
            proof {
                assert(out@ =~= base + sp_render(v.model(), ind, own_line));
            }
        },
        JSONObject::Integer { value } => {
            if own_line {
                append_vec(out, pad);
            }
            append_int(out, *value);
            proof {
                assert(out@ =~= base + sp_render(v.model(), ind, own_line));
            }
        },
        JSONObject::String { value } => {
            if own_line {
                append_vec(out, pad);
            }
            push_char(out, '"');
            let ghost base2 = out@;
            let sref = value.as_str();
            let n = sref.unicode_len();
            let mut k: usize = 0;
            while k < n
                invariant
                    k <= n,
                    n == sref@.len(),
                    sref@ == value@,
                    out@ == base2 + esc_all(sref@.subrange(0, k as int)),
                decreases n - k,
            {
                let c = sref.get_char(k);
                append_esc(out, c);
                k = k + 1;
                proof {
                    let p = sref@.subrange(0, k as int);
                    assert(p.drop_last() =~= sref@.subrange(0, k as int - 1));
                    assert(p.last() == sref@[k as int - 1]);
                    assert(out@ =~= base2 + esc_all(p));
                }
            }
            push_char(out, '"');
            proof {
                assert(sref@.subrange(0, n as int) =~= value@);
                assert(out@ =~= base + sp_render(v.model(), ind, own_line));
            }
        },
        JSONObject::Array { values } => {
            proof {
                lemma_model_elems(values@);
            }
            let ghost es = crate::json_object::model_elems(values@);
            if own_line {
                append_vec(out, pad);
            }
            push_char(out, '[');
            let ghost base2 = out@;
            let n = values.len();
            let mut k: usize = 0;
            while k < n
                invariant
                    k <= n,
                    n == values@.len(),
                    es == crate::json_object::model_elems(values@),
                    es.len() == n,
                    forall|t: int| 0 <= t < n ==> #[trigger] es[t] == values@[t].model(),
                    pad@ == spaces(ind),
                    pad@.len() == ind,
                    base2 + sp_render_elems(es, 0, ind) == out@ + sp_render_elems(
                        es,
                        k as int,
                        ind,
                    ),
                decreases n - k,
            {
                proof {
                    assert(decreases_to!(*v => *values));
                    assert(decreases_to!(*values => values@));
                    assert(decreases_to!(values@ => values@[k as int]));
                    assert(decreases_to!(*v => values@[k as int]));
                }
                render_into(&values[k], pad, false, out);
                if k + 1 < n {
                    append_str(out, ", ");
                }
                proof {
                    assert(sp_render_elems(es, k as int, ind) == sp_render(
                        es[k as int],
                        ind,
                        false,
                    ) + (if k as int + 1 < es.len() {
                        ", "@
                    } else {
                        Seq::<char>::empty()
                    }) + sp_render_elems(es, k as int + 1, ind));
                    assert(base2 + sp_render_elems(es, 0, ind) =~= out@ + sp_render_elems(
                        es,
                        k as int + 1,
                        ind,
                    ));
                }
                k = k + 1;
            }
            push_char(out, ']');
            proof {
                assert(sp_render_elems(es, n as int, ind) =~= Seq::<char>::empty());
                assert(out@ =~= base + sp_render(v.model(), ind, own_line));
            }
        },
        JSONObject::Bool { value } => {
            if *value {
                append_str(out, "true");
            } else {
                append_str(out, "false");
            }
            proof {
                assert(out@ =~= base + sp_render(v.model(), ind, own_line));
            }
        },
        JSONObject::Null => {
            append_str(out, "null");
            proof {
                assert(out@ =~= base + sp_render(v.model(), ind, own_line));
            }
        },
    }
}

/// Renders one value as indented text: `indent` levels of one space each,
/// `own_line` saying whether the value begins its own line (so that the
/// padding is emitted before it).
pub fn render_indent(object: &JSONObject, indent: u32, own_line: bool) -> (r: String)
    ensures
        r@ == sp_render(object.model(), indent as nat, own_line),
{
    let mut pad: Vec<char> = Vec::new();
    let mut k: u32 = 0;
    while k < indent
        invariant
            k <= indent,
            pad@ == spaces(k as nat),
        decreases indent - k,
    {
        pad.push(' ');
        k = k + 1;
        proof {
            assert(pad@ == spaces(k as nat));
        }
    }
    proof {
        lemma_spaces_len(indent as nat);
    }
    let mut out: Vec<char> = Vec::new();
    render_into(object, &mut pad, own_line, &mut out);
    proof {
        assert(out@ =~= sp_render(object.model(), indent as nat, own_line));
    }
    chars_to_string(&out)
}

} // verus!
