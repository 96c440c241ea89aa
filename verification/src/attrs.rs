//! Merging attributes into an element: the first value given for a name stays.

use vstd::prelude::*;
use crate::name::{attrs_view, Attribute, AttributeView, QualName, QualNameView};

verus! {

/// Whether some attribute of `attrs` is named `name`.
pub open spec fn has_name(attrs: Seq<AttributeView>, name: QualNameView) -> bool {
    exists|i: int| 0 <= i < attrs.len() && (#[trigger] attrs[i]).name == name
}

/// `existing`, followed by each attribute of `incoming`, taken in order, whose
/// name no attribute before it carries.
pub open spec fn merged(existing: Seq<AttributeView>, incoming: Seq<AttributeView>) -> Seq<
    AttributeView,
>
    decreases incoming.len(),
{
    if incoming.len() == 0 {
        existing
    } else if has_name(existing, incoming[0].name) {
        merged(existing, incoming.drop_first())
    } else {
        merged(existing.push(incoming[0]), incoming.drop_first())
    }
}

/// No two attributes of `attrs` share a name.
pub open spec fn names_distinct(attrs: Seq<AttributeView>) -> bool {
    forall|i: int, j: int|
        0 <= i < attrs.len() && 0 <= j < attrs.len() && i != j ==> (#[trigger] attrs[i]).name != (
        #[trigger] attrs[j]).name
}

/// The names of a list with one more attribute.
pub proof fn lemma_has_name_push(attrs: Seq<AttributeView>, a: AttributeView, name: QualNameView)
    ensures
        has_name(attrs.push(a), name) <==> has_name(attrs, name) || a.name == name,
{
    let longer = attrs.push(a);
    if has_name(longer, name) {
        let i = choose|i: int| 0 <= i < longer.len() && (#[trigger] longer[i]).name == name;
        if i < attrs.len() {
            assert(attrs[i].name == name);
        }
    }
    if has_name(attrs, name) {
        let i = choose|i: int| 0 <= i < attrs.len() && (#[trigger] attrs[i]).name == name;
        assert(longer[i].name == name);
    }
    if a.name == name {
        assert(longer[attrs.len() as int].name == name);
    }
}

/// The names of a list are that of its first attribute and those of the rest.
pub proof fn lemma_has_name_first(attrs: Seq<AttributeView>, name: QualNameView)
    requires
        attrs.len() > 0,
    ensures
        has_name(attrs, name) <==> attrs[0].name == name || has_name(attrs.drop_first(), name),
{
    let rest = attrs.drop_first();
    if has_name(attrs, name) {
        let i = choose|i: int| 0 <= i < attrs.len() && (#[trigger] attrs[i]).name == name;
        if i > 0 {
            assert(rest[i - 1].name == name);
        }
    }
    if has_name(rest, name) {
        let i = choose|i: int| 0 <= i < rest.len() && (#[trigger] rest[i]).name == name;
        assert(attrs[i + 1].name == name);
    }
}

/// Merging never overwrites: the result starts with `existing`, unchanged.
pub proof fn lemma_merged_keeps_existing(existing: Seq<AttributeView>, incoming: Seq<AttributeView>)
    ensures
        merged(existing, incoming).len() >= existing.len(),
        merged(existing, incoming).subrange(0, existing.len() as int) == existing,
    decreases incoming.len(),
{
    let result = merged(existing, incoming);
    if incoming.len() == 0 {
        assert(result.subrange(0, existing.len() as int) =~= existing);
    } else if has_name(existing, incoming[0].name) {
        lemma_merged_keeps_existing(existing, incoming.drop_first());
    } else {
        let longer = existing.push(incoming[0]);
        lemma_merged_keeps_existing(longer, incoming.drop_first());
        assert(result.subrange(0, existing.len() as int) =~= result.subrange(
            0,
            longer.len() as int,
        ).subrange(0, existing.len() as int));
        assert(longer.subrange(0, existing.len() as int) =~= existing);
    }
}

/// The names after merging are those of `existing` and those of `incoming`.
pub proof fn lemma_merged_names(
    existing: Seq<AttributeView>,
    incoming: Seq<AttributeView>,
    name: QualNameView,
)
    ensures
        has_name(merged(existing, incoming), name) <==> has_name(existing, name) || has_name(
            incoming,
            name,
        ),
    decreases incoming.len(),
{
    if incoming.len() == 0 {
    } else {
        lemma_has_name_first(incoming, name);
        if has_name(existing, incoming[0].name) {
            lemma_merged_names(existing, incoming.drop_first(), name);
        } else {
            lemma_has_name_push(existing, incoming[0], name);
            lemma_merged_names(existing.push(incoming[0]), incoming.drop_first(), name);
        }
    }
}

/// Merging attributes whose names are all there already changes nothing.
pub proof fn lemma_merged_absorbs(existing: Seq<AttributeView>, incoming: Seq<AttributeView>)
    requires
        forall|k: int| 0 <= k < incoming.len() ==> has_name(existing, (#[trigger] incoming[k]).name),
    ensures
        merged(existing, incoming) == existing,
    decreases incoming.len(),
{
    if incoming.len() > 0 {
        let rest = incoming.drop_first();
        assert(has_name(existing, incoming[0].name));
        assert forall|k: int| 0 <= k < rest.len() implies has_name(existing, (#[trigger] rest[k]).name) by {
            assert(rest[k] == incoming[k + 1]);
        }
        lemma_merged_absorbs(existing, rest);
    }
}

/// Merging the same attributes a second time changes nothing.
pub proof fn lemma_merged_idempotent(existing: Seq<AttributeView>, incoming: Seq<AttributeView>)
    ensures
        merged(merged(existing, incoming), incoming) == merged(existing, incoming),
{
    let once = merged(existing, incoming);
    assert forall|k: int| 0 <= k < incoming.len() implies has_name(once, (#[trigger] incoming[k]).name) by {
        lemma_merged_names(existing, incoming, incoming[k].name);
    }
    lemma_merged_absorbs(once, incoming);
}

/// Merging into attributes with distinct names leaves the names distinct.
pub proof fn lemma_merged_names_distinct(existing: Seq<AttributeView>, incoming: Seq<AttributeView>)
    requires
        names_distinct(existing),
    ensures
        names_distinct(merged(existing, incoming)),
    decreases incoming.len(),
{
    if incoming.len() == 0 {
    } else if has_name(existing, incoming[0].name) {
        lemma_merged_names_distinct(existing, incoming.drop_first());
    } else {
        let longer = existing.push(incoming[0]);
        assert forall|i: int, j: int|
            0 <= i < longer.len() && 0 <= j < longer.len() && i != j implies (#[trigger] longer[i]).name
            != (#[trigger] longer[j]).name by {
            if i < existing.len() && j < existing.len() {
                assert(existing[i].name != existing[j].name);
            } else if i < existing.len() {
                assert(existing[i].name != incoming[0].name);
            } else {
                assert(existing[j].name != incoming[0].name);
            }
        }
        lemma_merged_names_distinct(longer, incoming.drop_first());
    }
}

/// Whether some attribute of `attrs` is named `name`.
pub fn find_name(attrs: &Vec<Attribute>, name: &QualName) -> (found: bool)
    ensures
        found == has_name(attrs_view(attrs@), name@),
{
    let mut i: usize = 0;
    while i < attrs.len()
        invariant
            i <= attrs.len(),
            forall|j: int| 0 <= j < i ==> (#[trigger] attrs_view(attrs@)[j]).name != name@,
        decreases attrs.len() - i,
    {
        if attrs[i].name.same_as(name) {
            assert(attrs_view(attrs@)[i as int].name == name@);
            return true;
        }
        i += 1;
    }
    false
}

/// Adds each attribute of `incoming`, in order, to `attrs`, unless an attribute
/// of that name is there already.
pub fn merge_missing(attrs: &mut Vec<Attribute>, incoming: Vec<Attribute>)
    ensures
        attrs_view(final(attrs)@) == merged(attrs_view(old(attrs)@), attrs_view(incoming@)),
{
    let ghost all = attrs_view(incoming@);
    let ghost start = attrs_view(attrs@);
    assert(all.skip(0) =~= all);
    for attr in it: incoming
        invariant
            it.seq() == incoming@,
            all == attrs_view(incoming@),
            merged(attrs_view(attrs@), all.skip(it.index() as int)) == merged(start, all),
    {
        proof {
            let rest = all.skip(it.index() as int);
            assert(rest[0] == attr@);
            assert(rest.drop_first() =~= all.skip(it.index() + 1));
        }
        if !find_name(attrs, &attr.name) {
            proof {
                assert(attrs_view(attrs@.push(attr)) =~= attrs_view(attrs@).push(attr@));
            }
            attrs.push(attr);
        }
    }
}

} // verus!
