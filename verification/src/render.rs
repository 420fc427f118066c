//! Text for values: decimal digits for numbers, the natural text of
//! scalars, and the serialized form of whole records, stated character for
//! character by spec functions.

use crate::json::push_char;
use crate::json::str_chars;
use crate::json::Number;
use crate::json::ValueS;
use crate::item_view;
use crate::item_views_of_list;
use crate::item_views_of_pairs;
use crate::lemma_item_views_of_list_all;
use crate::lemma_item_views_of_pairs_all;
use crate::RecordItem;
use crate::Record;
use vstd::prelude::*;

verus! {

pub open spec fn digit_char_s(d: nat) -> char {
    if d == 0 {
        '0'
    } else if d == 1 {
        '1'
    } else if d == 2 {
        '2'
    } else if d == 3 {
        '3'
    } else if d == 4 {
        '4'
    } else if d == 5 {
        '5'
    } else if d == 6 {
        '6'
    } else if d == 7 {
        '7'
    } else if d == 8 {
        '8'
    } else {
        '9'
    }
}

/// The decimal digits of `n`, most significant first.
pub open spec fn dec_str(n: nat) -> Seq<char>
    decreases n,
{
    if n < 10 {
        seq![digit_char_s(n)]
    } else {
        dec_str(n / 10).push(digit_char_s(n % 10))
    }
}

/// Exactly `len` low decimal digits of `f`, leading zeros kept: the digits
/// after a decimal point.
pub open spec fn frac_str(f: nat, len: nat) -> Seq<char>
    decreases len,
{
    if len == 0 {
        Seq::empty()
    } else {
        frac_str(f / 10, (len - 1) as nat).push(digit_char_s(f % 10))
    }
}

/// The natural text of a number: sign, integer digits, the fraction digits
/// after a dot when there are any, and the exponent after `e` when it is not
/// zero.
pub open spec fn number_str(n: Number) -> Seq<char> {
    (if n.negative {
        seq!['-']
    } else {
        Seq::empty()
    }) + dec_str(n.integer as nat) + (if n.fraction_len > 0 {
        seq!['.'] + frac_str(n.fraction as nat, n.fraction_len as nat)
    } else {
        Seq::empty()
    }) + (if n.exponent != 0 {
        seq!['e'] + (if n.exponent_negative {
            seq!['-']
        } else {
            Seq::empty()
        }) + dec_str(n.exponent as nat)
    } else {
        Seq::empty()
    })
}

/// The natural text of a scalar; a container has none, only scalars render.
pub open spec fn scalar_str(v: ValueS) -> Option<Seq<char>> {
    match v {
        ValueS::Null => Option::Some("null"@),
        ValueS::Bool(b) => Option::Some(
            if b {
                "true"@
            } else {
                "false"@
            },
        ),
        ValueS::Num(n) => Option::Some(number_str(n)),
        ValueS::Str(s) => Option::Some(s),
        ValueS::List(_) => Option::None,
        ValueS::Object(_) => Option::None,
    }
}

fn digit_char(d: u64) -> (c: char)
    requires
        d < 10,
    ensures
        c == digit_char_s(d as nat),
{
    if d == 0 {
        '0'
    } else if d == 1 {
        '1'
    } else if d == 2 {
        '2'
    } else if d == 3 {
        '3'
    } else if d == 4 {
        '4'
    } else if d == 5 {
        '5'
    } else if d == 6 {
        '6'
    } else if d == 7 {
        '7'
    } else if d == 8 {
        '8'
    } else {
        '9'
    }
}

/// Appends the decimal digits of `n`.
pub fn push_u64_dec(s: &mut String, n: u64)
    ensures
        final(s)@ == old(s)@ + dec_str(n as nat),
    decreases n,
{
    if n < 10 {
        push_char(s, digit_char(n));
        assert(final(s)@ =~= old(s)@ + dec_str(n as nat));
    } else {
        push_u64_dec(s, n / 10);
        push_char(s, digit_char(n % 10));
        assert(final(s)@ =~= old(s)@ + dec_str(n as nat));
    }
}

/// Appends exactly `len` low digits of `f`, leading zeros kept.
pub fn push_frac(s: &mut String, f: u64, len: usize)
    ensures
        final(s)@ == old(s)@ + frac_str(f as nat, len as nat),
    decreases len,
{
    if len == 0 {
        assert(final(s)@ =~= old(s)@ + frac_str(f as nat, 0));
    } else {
        push_frac(s, f / 10, len - 1);
        push_char(s, digit_char(f % 10));
        assert(final(s)@ =~= old(s)@ + frac_str(f as nat, len as nat));
    }
}

/// Appends the natural text of a number.
pub fn push_number(s: &mut String, n: Number)
    ensures
        final(s)@ == old(s)@ + number_str(n),
{
    if n.negative {
        push_char(s, '-');
    }
    push_u64_dec(s, n.integer);
    if n.fraction_len > 0 {
        push_char(s, '.');
        push_frac(s, n.fraction, n.fraction_len);
    }
    if n.exponent != 0 {
        push_char(s, 'e');
        if n.exponent_negative {
            push_char(s, '-');
        }
        push_u64_dec(s, n.exponent as u64);
        proof {
            assert(dec_str(n.exponent as nat) == dec_str((n.exponent as u64) as nat));
        }
    }
    assert(final(s)@ =~= old(s)@ + number_str(n));
}

/// What an escape-needing character becomes inside a serialized string.
pub open spec fn esc_char(c: char) -> Seq<char> {
    if c == '"' {
        seq!['\\', '"']
    } else if c == '\\' {
        seq!['\\', '\\']
    } else if c == '\n' {
        seq!['\\', 'n']
    } else if c == '\r' {
        seq!['\\', 'r']
    } else if c == '\t' {
        seq!['\\', 't']
    } else {
        seq![c]
    }
}

/// The body of a serialized string, from character `i` on.
pub open spec fn esc_str(s: Seq<char>, i: int) -> Seq<char>
    decreases s.len() - i,
{
    if 0 <= i < s.len() {
        esc_char(s[i]) + esc_str(s, i + 1)
    } else {
        Seq::empty()
    }
}

/// The serialized text of a value: scalars render naturally except strings,
/// which are quoted and escaped; containers list their serialized parts.
pub open spec fn json_str(v: ValueS) -> Seq<char>
    decreases v, 0int,
    via json_str_dec
{
    match v {
        ValueS::Null => "null"@,
        ValueS::Bool(b) => if b {
            "true"@
        } else {
            "false"@
        },
        ValueS::Num(n) => number_str(n),
        ValueS::Str(s) => seq!['"'] + esc_str(s, 0) + seq!['"'],
        ValueS::List(elems) => seq!['['] + json_items(elems, 0) + seq![']'],
        ValueS::Object(pairs) => seq!['{'] + json_pairs(pairs, 0) + seq!['}'],
    }
}

/// The serialized elements of a list from slot `i` on, comma-separated.
pub open spec fn json_items(vs: Seq<ValueS>, i: int) -> Seq<char>
    decreases vs, vs.len() - i,
    via json_items_dec
{
    if 0 <= i < vs.len() {
        (if i > 0 {
            seq![',']
        } else {
            Seq::empty()
        }) + json_str(vs[i]) + json_items(vs, i + 1)
    } else {
        Seq::empty()
    }
}

/// The serialized pairs of an object from slot `i` on, comma-separated,
/// each a quoted name, a colon and the value.
pub open spec fn json_pairs(ps: Seq<(Seq<char>, ValueS)>, i: int) -> Seq<char>
    decreases ps, ps.len() - i,
    via json_pairs_dec
{
    if 0 <= i < ps.len() {
        (if i > 0 {
            seq![',']
        } else {
            Seq::empty()
        }) + seq!['"'] + esc_str(ps[i].0, 0) + seq!['"'] + seq![':'] + json_str(ps[i].1)
            + json_pairs(ps, i + 1)
    } else {
        Seq::empty()
    }
}

#[via_fn]
proof fn json_str_dec(v: ValueS) {
    broadcast use vstd::seq::group_seq_axioms;

}

#[via_fn]
proof fn json_items_dec(vs: Seq<ValueS>, i: int) {
    broadcast use vstd::seq::group_seq_axioms;

}

#[via_fn]
proof fn json_pairs_dec(ps: Seq<(Seq<char>, ValueS)>, i: int) {
    broadcast use vstd::seq::group_seq_axioms;

}

/// Appends the serialized body of a string: each character, escaped as
/// needed.
fn push_escaped(s: &mut String, t: &String)
    ensures
        final(s)@ == old(s)@ + esc_str(t@, 0),
{
    let ghost s0 = s@;
    let cs = str_chars(t.as_str());
    let n = cs.len();
    let mut i: usize = 0;
    proof {
        assert(s@ + esc_str(t@, 0) =~= s0 + esc_str(t@, 0));
    }
    while i < n
        invariant
            cs@ == t@,
            n == t@.len(),
            0 <= i <= n,
            s@ + esc_str(t@, i as int) == s0 + esc_str(t@, 0),
        decreases n - i,
    {
        let c = cs[i];
        if c == '"' {
            push_char(s, '\\');
            push_char(s, '"');
        } else if c == '\\' {
            push_char(s, '\\');
            push_char(s, '\\');
        } else if c == '\n' {
            push_char(s, '\\');
            push_char(s, 'n');
        } else if c == '\r' {
            push_char(s, '\\');
            push_char(s, 'r');
        } else if c == '\t' {
            push_char(s, '\\');
            push_char(s, 't');
        } else {
            push_char(s, c);
        }
        proof {
            assert(esc_str(t@, i as int) == esc_char(t@[i as int]) + esc_str(t@, i as int + 1));
            assert(s@ + esc_str(t@, i as int + 1) =~= s0 + esc_str(t@, 0));
        }
        i = i + 1;
    }
    proof {
        assert(esc_str(t@, n as int) =~= Seq::<char>::empty());
        assert(s@ =~= s0 + esc_str(t@, 0));
    }
}

/// Appends the serialized text of one record item.
fn push_json(s: &mut String, v: &RecordItem)
    ensures
        final(s)@ == old(s)@ + json_str(item_view(*v)),
    decreases *v,
{
    broadcast use vstd::std_specs::vec::group_vec_axioms;
    broadcast use vstd::seq::group_seq_axioms;

    match v {
        RecordItem::Null => {
            push_str4(s, 'n', 'u', 'l', 'l');
            proof {
                reveal_strlit("null");
                assert(final(s)@ =~= old(s)@ + json_str(item_view(*v)));
            }
        },
        RecordItem::Bool(b) => {
            if *b {
                push_str4(s, 't', 'r', 'u', 'e');
                proof {
                    reveal_strlit("true");
                    assert(final(s)@ =~= old(s)@ + json_str(item_view(*v)));
                }
            } else {
                push_str4(s, 'f', 'a', 'l', 's');
                push_char(s, 'e');
                proof {
                    reveal_strlit("false");
                    assert(final(s)@ =~= old(s)@ + json_str(item_view(*v)));
                }
            }
        },
        RecordItem::Number(n) => {
            push_number(s, *n);
        },
        RecordItem::String(t) => {
            push_char(s, '"');
            push_escaped(s, t);
            push_char(s, '"');
            proof {
                assert(final(s)@ =~= old(s)@ + json_str(item_view(*v)));
            }
        },
        RecordItem::Array(elems) => {
            let ghost s0 = s@;
            let ghost vs = item_views_of_list(elems@, 0);
            proof {
                lemma_item_views_of_list_all(elems@);
            }
            push_char(s, '[');
            let mut i: usize = 0;
            proof {
                assert(s@ + json_items(vs, 0) =~= s0 + seq!['['] + json_items(vs, 0));
            }
            while i < elems.len()
                invariant
                    *v == RecordItem::Array(*elems),
                    vs == item_views_of_list(elems@, 0),
                    vs.len() == elems@.len(),
                    forall|j: int| 0 <= j < elems@.len() ==> #[trigger] vs[j] == item_view(
                        elems@[j],
                    ),
                    0 <= i <= elems@.len(),
                    s@ + json_items(vs, i as int) == s0 + seq!['['] + json_items(vs, 0),
                decreases elems@.len() - i,
            {
                proof {
                    broadcast use vstd::std_specs::vec::group_vec_axioms;
                    broadcast use vstd::seq::group_seq_axioms;

                    assert(decreases_to!(*v => (*v)->Array_0));
                    assert((*v)->Array_0 == *elems);
                    assert(decreases_to!(*elems => elems@));
                    assert(decreases_to!(elems@ => elems@[i as int]));
                }
                if i > 0 {
                    push_char(s, ',');
                }
                push_json(s, &elems[i]);
                proof {
                    assert(json_items(vs, i as int) == (if i > 0 {
                        seq![',']
                    } else {
                        Seq::<char>::empty()
                    }) + json_str(vs[i as int]) + json_items(vs, i as int + 1));
                    assert(s@ + json_items(vs, i as int + 1) =~= s0 + seq!['['] + json_items(
                        vs,
                        0,
                    ));
                }
                i = i + 1;
            }
            push_char(s, ']');
            proof {
                assert(json_items(vs, elems@.len() as int) =~= Seq::<char>::empty());
                assert(s@ =~= s0 + json_str(item_view(*v)));
            }
        },
        RecordItem::Object(pairs) => {
            let ghost s0 = s@;
            let ghost ps = item_views_of_pairs(pairs@, 0);
            proof {
                lemma_item_views_of_pairs_all(pairs@);
            }
            push_char(s, '{');
            let mut i: usize = 0;
            proof {
                assert(s@ + json_pairs(ps, 0) =~= s0 + seq!['{'] + json_pairs(ps, 0));
            }
            while i < pairs.len()
                invariant
                    *v == RecordItem::Object(*pairs),
                    ps == item_views_of_pairs(pairs@, 0),
                    ps.len() == pairs@.len(),
                    forall|j: int| 0 <= j < pairs@.len() ==> #[trigger] ps[j] == (
                        pairs@[j].0@,
                        item_view(pairs@[j].1),
                    ),
                    0 <= i <= pairs@.len(),
                    s@ + json_pairs(ps, i as int) == s0 + seq!['{'] + json_pairs(ps, 0),
                decreases pairs@.len() - i,
            {
                proof {
                    broadcast use vstd::std_specs::vec::group_vec_axioms;
                    broadcast use vstd::seq::group_seq_axioms;

                    assert(decreases_to!(*v => (*v)->Object_0));
                    assert((*v)->Object_0 == *pairs);
                    assert(decreases_to!(*pairs => pairs@));
                    assert(decreases_to!(pairs@ => pairs@[i as int]));
                    assert(decreases_to!(pairs@[i as int] => pairs@[i as int].1));
                }
                if i > 0 {
                    push_char(s, ',');
                }
                push_char(s, '"');
                push_escaped(s, &pairs[i].0);
                push_char(s, '"');
                push_char(s, ':');
                push_json(s, &pairs[i].1);
                proof {
                    assert(json_pairs(ps, i as int) == (if i > 0 {
                        seq![',']
                    } else {
                        Seq::<char>::empty()
                    }) + seq!['"'] + esc_str(ps[i as int].0, 0) + seq!['"'] + seq![':'] + json_str(
                        ps[i as int].1,
                    ) + json_pairs(ps, i as int + 1));
                    assert(s@ + json_pairs(ps, i as int + 1) =~= s0 + seq!['{'] + json_pairs(
                        ps,
                        0,
                    ));
                }
                i = i + 1;
            }
            push_char(s, '}');
            proof {
                assert(json_pairs(ps, pairs@.len() as int) =~= Seq::<char>::empty());
                assert(s@ =~= s0 + json_str(item_view(*v)));
            }
        },
    }
}

/// Appends four characters.
fn push_str4(s: &mut String, a: char, b: char, c: char, d: char)
    ensures
        final(s)@ == old(s)@ + seq![a, b, c, d],
{
    push_char(s, a);
    push_char(s, b);
    push_char(s, c);
    push_char(s, d);
    assert(final(s)@ =~= old(s)@ + seq![a, b, c, d]);
}

impl RecordItem {
    /// The serialized text of this item.
    pub fn to_json(&self) -> (r: String)
        ensures
            r@ == json_str(item_view(*self)),
    {
        let mut s = String::new();
        push_json(&mut s, self);
        proof {
            assert(Seq::<char>::empty() + json_str(item_view(*self)) =~= json_str(
                item_view(*self),
            ));
        }
        s
    }
}

impl Record {
    /// The serialized text of a record: the object its fields form.
    pub fn to_json(&self) -> (r: String)
        ensures
            r@ == json_str(ValueS::Object(self@)),
    {
        let item = RecordItem::Object(clone_pairs(&self.0));
        item.to_json()
    }
}

/// A deep copy of a pair list, image for image.
fn clone_pairs(pairs: &Vec<(String, RecordItem)>) -> (r: Vec<(String, RecordItem)>)
    ensures
        item_views_of_pairs(r@, 0) == item_views_of_pairs(pairs@, 0),
{
    let mut copy: Vec<(String, RecordItem)> = Vec::new();
    let mut i: usize = 0;
    while i < pairs.len()
        invariant
            0 <= i <= pairs@.len(),
            copy@.len() == i,
            forall|j: int|
                #![trigger copy@[j]]
                0 <= j < i ==> copy@[j].0@ == pairs@[j].0@ && item_view(copy@[j].1) == item_view(
                    pairs@[j].1,
                ),
        decreases pairs@.len() - i,
    {
        let k = pairs[i].0.clone();
        let v = pairs[i].1.clone();
        copy.push((k, v));
        i = i + 1;
    }
    proof {
        lemma_item_views_of_pairs_all(pairs@);
        lemma_item_views_of_pairs_all(copy@);
        assert forall|j: int| 0 <= j < pairs@.len() implies item_views_of_pairs(copy@, 0)[j]
            == item_views_of_pairs(pairs@, 0)[j] by {
            assert(copy@[j].0@ == pairs@[j].0@ && item_view(copy@[j].1) == item_view(pairs@[j].1));
        }
        assert(item_views_of_pairs(copy@, 0) =~= item_views_of_pairs(pairs@, 0));
    }
    copy
}

} // verus!
