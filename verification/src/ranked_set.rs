use vstd::prelude::*;

verus! {

#[verifier::external_type_specification]
#[verifier::external_body]
#[verifier::reject_recursive_types(T)]
pub struct ExSortedSet<T: PartialOrd>(sorted_vec::partial::SortedSet<T>);

/// What a ranked set holds, in its stored ascending order.
pub uninterp spec fn ranked_entries(s: sorted_vec::partial::SortedSet<(u64, u64)>) -> Seq<
    (u64, u64),
>;

/// The lexicographic order std derives for integer pairs.
pub open spec fn pair_le(a: (u64, u64), b: (u64, u64)) -> bool {
    a.0 < b.0 || (a.0 == b.0 && a.1 <= b.1)
}

/// Ascending by the lexicographic pair order.
pub open spec fn entries_sorted(s: Seq<(u64, u64)>) -> bool {
    forall|i: int, j: int| 0 <= i <= j < s.len() ==> pair_le(#[trigger] s[i], #[trigger] s[j])
}

/// Relies on sorted_vec's SortedSet::new: a set holding nothing.
#[verifier::external_body]
pub(crate) fn rs_new() -> (r: sorted_vec::partial::SortedSet<(u64, u64)>)
    ensures
        ranked_entries(r) == Seq::<(u64, u64)>::empty(),
{
    sorted_vec::partial::SortedSet::new()
}

/// Relies on sorted_vec's len through its vector view: how many entries the
/// set holds.
#[verifier::external_body]
pub(crate) fn rs_len(s: &sorted_vec::partial::SortedSet<(u64, u64)>) -> (r: usize)
    ensures
        r == ranked_entries(*s).len(),
{
    s.len()
}

/// Relies on sorted_vec's indexing through its vector view: the least entry.
#[verifier::external_body]
pub(crate) fn rs_first(s: &sorted_vec::partial::SortedSet<(u64, u64)>) -> (r: (u64, u64))
    requires
        ranked_entries(*s).len() >= 1,
    ensures
        r == ranked_entries(*s)[0],
{
    s[0]
}

/// Relies on sorted_vec's SortedSet::insert: the entry goes in at its sorted
/// position, keeping ascending order; an entry not yet present displaces
/// nothing.
#[verifier::external_body]
pub(crate) fn rs_insert(s: &mut sorted_vec::partial::SortedSet<(u64, u64)>, e: (u64, u64)) -> (r:
    usize)
    requires
        !ranked_entries(*old(s)).contains(e),
    ensures
        r <= ranked_entries(*old(s)).len(),
        ranked_entries(*final(s)) == ranked_entries(*old(s)).insert(r as int, e),
        entries_sorted(ranked_entries(*old(s))) ==> entries_sorted(ranked_entries(*final(s))),
{
    s.insert(e)
}

/// Relies on sorted_vec's SortedSet::pop: removes and returns the greatest
/// entry, or nothing from an empty set.
#[verifier::external_body]
pub(crate) fn rs_pop(s: &mut sorted_vec::partial::SortedSet<(u64, u64)>) -> (r: Option<(u64, u64)>)
    ensures
        match r {
            Option::Some(e) => {
                &&& ranked_entries(*old(s)).len() >= 1
                &&& e == ranked_entries(*old(s)).last()
                &&& ranked_entries(*final(s)) == ranked_entries(*old(s)).drop_last()
            },
            Option::None => {
                &&& ranked_entries(*old(s)).len() == 0
                &&& ranked_entries(*final(s)) == ranked_entries(*old(s))
            },
        },
{
    s.pop()
}

/// Relies on sorted_vec's SortedSet::remove_index: removes and returns the
/// least entry.
#[verifier::external_body]
pub(crate) fn rs_remove_first(s: &mut sorted_vec::partial::SortedSet<(u64, u64)>) -> (r: (
    u64,
    u64,
))
    requires
        ranked_entries(*old(s)).len() >= 1,
    ensures
        r == ranked_entries(*old(s))[0],
        ranked_entries(*final(s)) == ranked_entries(*old(s)).drop_first(),
{
    s.remove_index(0)
}

} // verus!
