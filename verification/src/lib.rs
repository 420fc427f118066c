//! A small log-shipping router's core: a resumable streaming parser that
//! turns characters into structured value trees, a template engine that
//! renders field paths against records, a dispatcher that fans accepted
//! records out to outputs, and the stateful rules of the file and batch
//! sinks. Everything here is pure logic; reading sockets, touching files and
//! sending requests live outside, around this crate.

use vstd::prelude::*;

pub mod dispatch;
pub mod elasticsearch;
pub mod files;
pub mod json;
pub mod logger;
pub mod logging;
pub mod null;
pub mod render;
pub mod tcp;

use crate::json::Number;
use crate::json::ValueS;

verus! {

/// One field of a record: the same shapes as a parsed value.
#[derive(Debug)]
pub enum RecordItem {
    Null,
    Bool(bool),
    Number(Number),
    String(String),
    Array(Vec<RecordItem>),
    Object(Vec<(String, RecordItem)>),
}

/// The spec-level image of a record item, shared with parsed values.
pub open spec fn item_view(v: RecordItem) -> ValueS
    decreases v, 0int,
    via item_view_dec
{
    match v {
        RecordItem::Null => ValueS::Null,
        RecordItem::Bool(b) => ValueS::Bool(b),
        RecordItem::Number(n) => ValueS::Num(n),
        RecordItem::String(s) => ValueS::Str(s@),
        RecordItem::Array(elems) => ValueS::List(item_views_of_list(elems@, 0)),
        RecordItem::Object(pairs) => ValueS::Object(item_views_of_pairs(pairs@, 0)),
    }
}

/// The images of the elements of an array field, from slot `i` on.
pub open spec fn item_views_of_list(elems: Seq<RecordItem>, i: int) -> Seq<ValueS>
    decreases elems, elems.len() - i,
    via item_views_of_list_dec
{
    if 0 <= i < elems.len() {
        seq![item_view(elems[i])] + item_views_of_list(elems, i + 1)
    } else {
        Seq::empty()
    }
}

/// The images of the pairs of an object field, from slot `i` on.
pub open spec fn item_views_of_pairs(pairs: Seq<(String, RecordItem)>, i: int) -> Seq<
    (Seq<char>, ValueS),
>
    decreases pairs, pairs.len() - i,
    via item_views_of_pairs_dec
{
    if 0 <= i < pairs.len() {
        seq![(pairs[i].0@, item_view(pairs[i].1))] + item_views_of_pairs(pairs, i + 1)
    } else {
        Seq::empty()
    }
}

#[via_fn]
proof fn item_view_dec(v: RecordItem) {
    broadcast use vstd::std_specs::vec::group_vec_axioms;
    broadcast use vstd::seq::group_seq_axioms;

}

#[via_fn]
proof fn item_views_of_list_dec(elems: Seq<RecordItem>, i: int) {
    broadcast use vstd::seq::group_seq_axioms;

}

#[via_fn]
proof fn item_views_of_pairs_dec(pairs: Seq<(String, RecordItem)>, i: int) {
    broadcast use vstd::seq::group_seq_axioms;

}

impl View for RecordItem {
    type V = ValueS;

    open spec fn view(&self) -> ValueS {
        item_view(*self)
    }
}

/// The images of an item sequence are as long as it, one image per slot.
pub proof fn lemma_item_views_of_list_index(elems: Seq<RecordItem>, i: int)
    requires
        0 <= i <= elems.len(),
    ensures
        item_views_of_list(elems, i).len() == elems.len() - i,
        forall|j: int|
            i <= j < elems.len() ==> #[trigger] item_views_of_list(elems, i)[j - i] == item_view(
                elems[j],
            ),
    decreases elems.len() - i,
{
    broadcast use vstd::seq::group_seq_axioms;

    if i < elems.len() {
        lemma_item_views_of_list_index(elems, i + 1);
        assert forall|j: int| i <= j < elems.len() implies #[trigger] item_views_of_list(
            elems,
            i,
        )[j - i] == item_view(elems[j]) by {
            if j == i {
            } else {
                assert(item_views_of_list(elems, i) == seq![item_view(elems[i])]
                    + item_views_of_list(elems, i + 1));
                assert((seq![item_view(elems[i])] + item_views_of_list(elems, i + 1))[j - i]
                    == item_views_of_list(elems, i + 1)[j - i - 1]);
                assert(item_views_of_list(elems, i + 1)[j - (i + 1)] == item_view(elems[j]));
            }
        }
    }
}

/// The images of a pair sequence are as long as it, one image per slot.
pub proof fn lemma_item_views_of_pairs_index(pairs: Seq<(String, RecordItem)>, i: int)
    requires
        0 <= i <= pairs.len(),
    ensures
        item_views_of_pairs(pairs, i).len() == pairs.len() - i,
        forall|j: int|
            i <= j < pairs.len() ==> #[trigger] item_views_of_pairs(pairs, i)[j - i] == (
                pairs[j].0@,
                item_view(pairs[j].1),
            ),
    decreases pairs.len() - i,
{
    broadcast use vstd::seq::group_seq_axioms;

    if i < pairs.len() {
        lemma_item_views_of_pairs_index(pairs, i + 1);
        assert forall|j: int| i <= j < pairs.len() implies #[trigger] item_views_of_pairs(
            pairs,
            i,
        )[j - i] == (pairs[j].0@, item_view(pairs[j].1)) by {
            if j == i {
            } else {
                assert(item_views_of_pairs(pairs, i) == seq![(pairs[i].0@, item_view(pairs[i].1))]
                    + item_views_of_pairs(pairs, i + 1));
                assert((seq![(pairs[i].0@, item_view(pairs[i].1))] + item_views_of_pairs(
                    pairs,
                    i + 1,
                ))[j - i] == item_views_of_pairs(pairs, i + 1)[j - i - 1]);
                assert(item_views_of_pairs(pairs, i + 1)[j - (i + 1)] == (pairs[j].0@, item_view(
                    pairs[j].1,
                )));
            }
        }
    }
}

/// The images of an item sequence, slot by slot from the start.
pub proof fn lemma_item_views_of_list_all(elems: Seq<RecordItem>)
    ensures
        item_views_of_list(elems, 0).len() == elems.len(),
        forall|j: int|
            0 <= j < elems.len() ==> #[trigger] item_views_of_list(elems, 0)[j] == item_view(
                elems[j],
            ),
{
    lemma_item_views_of_list_index(elems, 0);
    assert forall|j: int| 0 <= j < elems.len() implies #[trigger] item_views_of_list(elems, 0)[j]
        == item_view(elems[j]) by {
        assert(item_views_of_list(elems, 0)[j - 0] == item_view(elems[j]));
    }
}

/// The images of a pair sequence, slot by slot from the start.
pub proof fn lemma_item_views_of_pairs_all(pairs: Seq<(String, RecordItem)>)
    ensures
        item_views_of_pairs(pairs, 0).len() == pairs.len(),
        forall|j: int|
            0 <= j < pairs.len() ==> #[trigger] item_views_of_pairs(pairs, 0)[j] == (
                pairs[j].0@,
                item_view(pairs[j].1),
            ),
{
    lemma_item_views_of_pairs_index(pairs, 0);
    assert forall|j: int| 0 <= j < pairs.len() implies #[trigger] item_views_of_pairs(pairs, 0)[j]
        == (pairs[j].0@, item_view(pairs[j].1)) by {
        assert(item_views_of_pairs(pairs, 0)[j - 0] == (pairs[j].0@, item_view(pairs[j].1)));
    }
}

/// The top-level unit moving through the pipeline: an object-shaped value,
/// looked up by field name.
#[derive(Debug)]
pub struct Record(pub Vec<(String, RecordItem)>);

/// The spec-level image of a record: its named fields, in insertion order.
pub open spec fn record_view(r: Record) -> Seq<(Seq<char>, ValueS)> {
    item_views_of_pairs(r.0@, 0)
}

impl View for Record {
    type V = Seq<(Seq<char>, ValueS)>;

    open spec fn view(&self) -> Seq<(Seq<char>, ValueS)> {
        record_view(*self)
    }
}

/// The last binding of a name in a pair sequence, as a map lookup would see
/// it.
pub open spec fn lookup_s(pairs: Seq<(Seq<char>, ValueS)>, name: Seq<char>) -> Option<ValueS>
    decreases pairs.len(),
{
    if pairs.len() == 0 {
        Option::None
    } else if pairs.last().0 == name {
        Option::Some(pairs.last().1)
    } else {
        lookup_s(pairs.drop_last(), name)
    }
}

impl Record {
    /// A record with no fields yet.
    pub fn new() -> (r: Record)
        ensures
            r@ == Seq::<(Seq<char>, ValueS)>::empty(),
    {
        let r = Record(Vec::new());
        proof {
            assert(r@ =~= Seq::<(Seq<char>, ValueS)>::empty());
        }
        r
    }

    /// Binds a field name to a value; a later binding of the same name wins
    /// on lookup.
    pub fn insert(&mut self, name: String, value: RecordItem)
        ensures
            final(self)@ == old(self)@.push((name@, item_view(value))),
    {
        proof {
            lemma_item_views_of_pairs_all(self.0@);
        }
        let ghost pairs0 = self.0@;
        self.0.push((name, value));
        proof {
            lemma_item_views_of_pairs_all(self.0@);
            lemma_item_views_of_pairs_all(pairs0);
            assert(item_views_of_pairs(self.0@, 0) =~= item_views_of_pairs(pairs0, 0).push(
                (name@, item_view(value)),
            ));
        }
    }

    /// The value bound to a field name, if any.
    pub fn find(&self, name: &str) -> (r: Option<&RecordItem>)
        ensures
            (match r {
                Option::Some(v) => lookup_s(self@, name@) == Option::Some(item_view(*v)),
                Option::None => lookup_s(self@, name@) is None,
            }),
    {
        find_in_pairs(&self.0, name)
    }
}

/// The value bound to a name among pairs, the latest binding winning.
pub fn find_in_pairs<'a>(pairs: &'a Vec<(String, RecordItem)>, name: &str) -> (r: Option<
    &'a RecordItem,
>)
    ensures
        (match r {
            Option::Some(v) => lookup_s(item_views_of_pairs(pairs@, 0), name@) == Option::Some(
                item_view(*v),
            ),
            Option::None => lookup_s(item_views_of_pairs(pairs@, 0), name@) is None,
        }),
{
    proof {
        lemma_item_views_of_pairs_all(pairs@);
    }
    let ghost view0 = item_views_of_pairs(pairs@, 0);
    let mut i: usize = pairs.len();
    proof {
        assert(view0.take(i as int) =~= view0);
    }
    loop
        invariant
            0 <= i <= pairs@.len(),
            view0 == item_views_of_pairs(pairs@, 0),
            view0.len() == pairs@.len(),
            forall|j: int|
                0 <= j < pairs@.len() ==> #[trigger] view0[j] == (pairs@[j].0@, item_view(
                    pairs@[j].1,
                )),
            lookup_s(view0, name@) == lookup_s(view0.take(i as int), name@),
        ensures
            i == 0,
            lookup_s(view0, name@) is None,
        decreases i,
    {
        if i == 0 {
            proof {
                assert(view0.take(0) =~= Seq::<(Seq<char>, ValueS)>::empty());
            }
            break;
        }
        let k: &String = &pairs[i - 1].0;
        if str_eq_string(name, k) {
            proof {
                assert(view0.take(i as int).last() == view0[i - 1]);
            }
            return Option::Some(&pairs[i - 1].1);
        }
        proof {
            assert(view0.take(i as int).drop_last() =~= view0.take(i as int - 1));
        }
        i = i - 1;
    }
    Option::None
}

/// True exactly when the name and the string hold the same characters.
fn str_eq_string(a: &str, b: &String) -> (r: bool)
    ensures
        r == (a@ == b@),
{
    crate::json::strings_equal(a, b.as_str())
}

impl Clone for RecordItem {
    /// A deep copy: the copy's image is the original's.
    fn clone(&self) -> (r: RecordItem)
        ensures
            item_view(r) == item_view(*self),
        decreases self,
    {
        broadcast use vstd::std_specs::vec::group_vec_axioms;
        broadcast use vstd::seq::group_seq_axioms;

        match self {
            RecordItem::Null => RecordItem::Null,
            RecordItem::Bool(b) => RecordItem::Bool(*b),
            RecordItem::Number(n) => RecordItem::Number(*n),
            RecordItem::String(s) => RecordItem::String(s.clone()),
            RecordItem::Array(elems) => {
                let mut copy: Vec<RecordItem> = Vec::new();
                let mut i: usize = 0;
                proof {
                    lemma_item_views_of_list_all(elems@);
                    lemma_item_views_of_list_all(copy@);
                }
                while i < elems.len()
                    invariant
                        *self == RecordItem::Array(*elems),
                        0 <= i <= elems@.len(),
                        copy@.len() == i,
                        forall|j: int|
                            #![trigger copy@[j]]
                            0 <= j < i ==> item_view(copy@[j]) == item_view(elems@[j]),
                    decreases elems@.len() - i,
                {
                    proof {
                        broadcast use vstd::std_specs::vec::group_vec_axioms;
                        broadcast use vstd::seq::group_seq_axioms;

                        assert(decreases_to!(*self => (*self)->Array_0));
                        assert((*self)->Array_0 == *elems);
                        assert(decreases_to!(*elems => elems@));
                        assert(decreases_to!(elems@ => elems@[i as int]));
                    }
                    let c = elems[i].clone();
                    proof {
                        assert(item_view(c) == item_view(elems@[i as int]));
                    }
                    copy.push(c);
                    i = i + 1;
                }
                proof {
                    lemma_item_views_of_list_all(elems@);
                    lemma_item_views_of_list_all(copy@);
                    assert forall|j: int| 0 <= j < elems@.len() implies item_views_of_list(
                        copy@,
                        0,
                    )[j] == item_views_of_list(elems@, 0)[j] by {
                        assert(item_view(copy@[j]) == item_view(elems@[j]));
                    }
                    assert(item_views_of_list(copy@, 0) =~= item_views_of_list(elems@, 0));
                }
                RecordItem::Array(copy)
            },
            RecordItem::Object(pairs) => {
                let mut copy: Vec<(String, RecordItem)> = Vec::new();
                let mut i: usize = 0;
                while i < pairs.len()
                    invariant
                        *self == RecordItem::Object(*pairs),
                        0 <= i <= pairs@.len(),
                        copy@.len() == i,
                        forall|j: int|
                            #![trigger copy@[j]]
                            0 <= j < i ==> copy@[j].0@ == pairs@[j].0@ && item_view(copy@[j].1)
                                == item_view(pairs@[j].1),
                    decreases pairs@.len() - i,
                {
                    proof {
                        broadcast use vstd::std_specs::vec::group_vec_axioms;
                        broadcast use vstd::seq::group_seq_axioms;

                        assert(decreases_to!(*self => (*self)->Object_0));
                        assert((*self)->Object_0 == *pairs);
                        assert(decreases_to!(*pairs => pairs@));
                        assert(decreases_to!(pairs@ => pairs@[i as int]));
                        assert(decreases_to!(pairs@[i as int] => pairs@[i as int].1));
                    }
                    let k = pairs[i].0.clone();
                    let v = pairs[i].1.clone();
                    copy.push((k, v));
                    i = i + 1;
                }
                proof {
                    lemma_item_views_of_pairs_all(pairs@);
                    lemma_item_views_of_pairs_all(copy@);
                    assert forall|j: int| 0 <= j < pairs@.len() implies item_views_of_pairs(
                        copy@,
                        0,
                    )[j] == item_views_of_pairs(pairs@, 0)[j] by {
                        assert(copy@[j].0@ == pairs@[j].0@ && item_view(copy@[j].1) == item_view(
                            pairs@[j].1,
                        ));
                    }
                    assert(item_views_of_pairs(copy@, 0) =~= item_views_of_pairs(pairs@, 0));
                }
                RecordItem::Object(copy)
            },
        }
    }
}

impl Clone for Record {
    /// A deep copy: the copy's image is the original's, so an output can
    /// never observe another output's mutations.
    fn clone(&self) -> (r: Record)
        ensures
            r@ == self@,
    {
        let mut copy: Vec<(String, RecordItem)> = Vec::new();
        let mut i: usize = 0;
        while i < self.0.len()
            invariant
                0 <= i <= self.0@.len(),
                copy@.len() == i,
                forall|j: int|
                    #![trigger copy@[j]]
                    0 <= j < i ==> copy@[j].0@ == self.0@[j].0@ && item_view(copy@[j].1)
                        == item_view(self.0@[j].1),
            decreases self.0@.len() - i,
        {
            proof {
                broadcast use vstd::std_specs::vec::group_vec_axioms;

            }
            let k = self.0[i].0.clone();
            let v = self.0[i].1.clone();
            copy.push((k, v));
            i = i + 1;
        }
        proof {
            lemma_item_views_of_pairs_all(self.0@);
            lemma_item_views_of_pairs_all(copy@);
            assert forall|j: int| 0 <= j < self.0@.len() implies item_views_of_pairs(copy@, 0)[j]
                == item_views_of_pairs(self.0@, 0)[j] by {
                assert(copy@[j].0@ == self.0@[j].0@ && item_view(copy@[j].1) == item_view(
                    self.0@[j].1,
                ));
            }
            assert(item_views_of_pairs(copy@, 0) =~= item_views_of_pairs(self.0@, 0));
        }
        Record(copy)
    }
}

} // verus!
