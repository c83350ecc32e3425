//! Request headers as plain texts.
use crate::text;
use crate::text::equal_folded;
use vstd::prelude::*;

verus! {

broadcast use vstd::seq_lib::group_seq_properties;

/// A request header.
#[derive(Debug)]
pub struct Header {
    pub field: String,
    pub value: String,
}

impl View for Header {
    type V = (Seq<char>, Seq<char>);

    open spec fn view(&self) -> (Seq<char>, Seq<char>) {
        (self.field@, self.value@)
    }
}

pub open spec fn header_views(list: Seq<Header>) -> Seq<(Seq<char>, Seq<char>)> {
    list.map_values(|h: Header| h@)
}

/// The values of a header, whatever the case of its name, in order.
pub open spec fn values_of(list: Seq<(Seq<char>, Seq<char>)>, name: Seq<char>) -> Seq<Seq<char>>
    decreases list.len(),
{
    if list.len() == 0 {
        Seq::empty()
    } else {
        let rest = values_of(list.drop_last(), name);
        if text::same_folded(list.last().0, name) {
            rest.push(list.last().1)
        } else {
            rest
        }
    }
}

/// The first value of a header.
pub open spec fn first_of(list: Seq<(Seq<char>, Seq<char>)>, name: Seq<char>) -> Option<Seq<char>> {
    let values = values_of(list, name);
    if values.len() > 0 {
        Some(values[0])
    } else {
        None
    }
}

/// The values of a header, whatever the case of its name, in order.
pub fn values(headers: &Vec<Header>, name: &str) -> (r: Vec<String>)
    ensures
        text::texts(r@) == values_of(header_views(headers@), name@),
{
    let ghost all = header_views(headers@);
    let mut out: Vec<String> = Vec::new();
    let mut i: usize = 0;
    assert(all.take(0) =~= Seq::empty());
    assert(text::texts(out@) =~= Seq::empty());
    while i < headers.len()
        invariant
            i <= headers@.len(),
            all == header_views(headers@),
            text::texts(out@) == values_of(all.take(i as int), name@),
        decreases headers@.len() - i,
    {
        assert(all.take(i + 1).drop_last() == all.take(i as int));
        assert(all.take(i + 1).last() == headers@[i as int]@);
        if equal_folded(&headers[i].field, name) {
            let ghost before = text::texts(out@);
            out.push(headers[i].value.clone());
            assert(text::texts(out@) =~= before.push(headers@[i as int].value@));
        }
        i += 1;
    }
    assert(all.take(all.len() as int) == all);
    out
}

/// The first value of a header.
pub fn first(headers: &Vec<Header>, name: &str) -> (r: Option<String>)
    ensures
        text::text_option(r) == first_of(header_views(headers@), name@),
{
    let list = values(headers, name);
    assert(text::texts(list@).len() == list@.len());
    if list.len() > 0 {
        assert(text::texts(list@)[0] == list@[0]@);
        Some(list[0].clone())
    } else {
        None
    }
}

/// The values of a header are those under its name in any case, in their order; the first of them
/// is the one that counts where one does.
pub proof fn law_values_of_a_header(
    list: Seq<(Seq<char>, Seq<char>)>,
    header: (Seq<char>, Seq<char>),
    name: Seq<char>,
)
    ensures
        values_of(Seq::empty(), name) == Seq::<Seq<char>>::empty(),
        text::lower(header.0) == text::lower(name) ==> values_of(list.push(header), name)
            == values_of(list, name).push(header.1),
        text::lower(header.0) != text::lower(name) ==> values_of(list.push(header), name)
            == values_of(list, name),
        first_of(list, name) is None <==> values_of(list, name).len() == 0,
        first_of(list, name) matches Some(value) ==> value == values_of(list, name)[0],
{
    assert(list.push(header).drop_last() =~= list);
}

} // verus!
