//! The frame table: every name once, in the order in which the names were
//! first seen, each known by its place in that order.

use vstd::prelude::*;
use indexmap::IndexSet;
use std::borrow::Cow;
use crate::model::{Frame, FrameView};

verus! {

/// `indexmap::IndexSet`, carried through as it is: nothing inside a set is
/// visible here, and what a set holds is known by `set_items` alone.
#[verifier::external_type_specification]
#[verifier::external_body]
#[verifier::reject_recursive_types(T)]
#[verifier::reject_recursive_types(S)]
pub struct ExIndexSet<T, S>(IndexSet<T, S>);

/// The texts that a set of strings holds, in the set's own order, which is
/// the order in which they were inserted.
pub uninterp spec fn set_items(set: IndexSet<String>) -> Seq<Seq<char>>;

/// `IndexSet::new`, trusted: the new set holds nothing.
#[verifier::external_body]
fn set_new() -> (set: IndexSet<String>)
    ensures
        set_items(set) == Seq::<Seq<char>>::empty(),
{
    IndexSet::new()
}

/// `IndexSet::insert_full`, trusted. Where the set holds the text already, it
/// stays as it was, and the result is a place at which the text stands and
/// `false`. Where it does not, the text is added behind all others, and the
/// result is that last place and `true`. Like `Vec::push`, the call gives up
/// only where no memory is left for the new entry.
#[verifier::external_body]
fn set_insert_full(set: &mut IndexSet<String>, value: String) -> (r: (usize, bool))
    ensures
        r.1 == !set_items(*old(set)).contains(value@),
        r.1 ==> set_items(*final(set)) == set_items(*old(set)).push(value@),
        r.1 ==> r.0 == set_items(*old(set)).len(),
        !r.1 ==> set_items(*final(set)) == set_items(*old(set)),
        r.0 < set_items(*final(set)).len(),
        set_items(*final(set))[r.0 as int] == value@,
{
    set.insert_full(value)
}

/// `IndexSet::len`, trusted: the number of texts in the set.
#[verifier::external_body]
fn set_len(set: &IndexSet<String>) -> (n: usize)
    ensures
        n == set_items(*set).len(),
{
    set.len()
}

/// `IndexSet::get_index`, trusted: the text at a place that the set has, and
/// nothing at any other place.
#[verifier::external_body]
fn set_get_index(set: &IndexSet<String>, index: usize) -> (r: Option<&String>)
    ensures
        match r {
            Some(text) => index < set_items(*set).len() && text@ == set_items(*set)[index as int],
            None => set_items(*set).len() <= index,
        },
{
    set.get_index(index)
}

/// The table after `name` was interned: as before where the table knows the
/// name, and with the name as its new last entry where it does not.
pub open spec fn intern_one(table: Seq<Seq<char>>, name: Seq<char>) -> Seq<Seq<char>> {
    if table.contains(name) {
        table
    } else {
        table.push(name)
    }
}

/// The table after all of `names` were interned, one after the other.
pub open spec fn intern_all(table: Seq<Seq<char>>, names: Seq<Seq<char>>) -> Seq<Seq<char>>
    decreases names.len(),
{
    if names.len() == 0 {
        table
    } else {
        intern_one(intern_all(table, names.drop_last()), names.last())
    }
}

/// The place of `name` in a table that holds it.
pub open spec fn frame_index(table: Seq<Seq<char>>, name: Seq<char>) -> int {
    table.index_of(name)
}

/// Every one of `names` is in the table.
pub open spec fn covers(table: Seq<Seq<char>>, names: Seq<Seq<char>>) -> bool {
    forall|k: int| 0 <= k < names.len() ==> table.contains(#[trigger] names[k])
}

/// The name at `position` does not occur before it.
pub open spec fn first_seen(names: Seq<Seq<char>>, position: int) -> bool {
    &&& 0 <= position < names.len()
    &&& forall|q: int| 0 <= q < position ==> names[q] != names[position]
}

/// The frames that a table of names stands for.
pub open spec fn frames_of(table: Seq<Seq<char>>) -> Seq<FrameView> {
    table.map_values(|name: Seq<char>| FrameView::named(name))
}

/// In a table without repetitions a name has one place only.
pub proof fn lemma_frame_index_at(table: Seq<Seq<char>>, name: Seq<char>, index: int)
    requires
        table.no_duplicates(),
        0 <= index < table.len(),
        table[index] == name,
    ensures
        frame_index(table, name) == index,
{
}

/// A name keeps its place when the table grows behind it.
pub proof fn lemma_frame_index_stable(
    table: Seq<Seq<char>>,
    longer: Seq<Seq<char>>,
    name: Seq<char>,
)
    requires
        table.is_prefix_of(longer),
        longer.no_duplicates(),
        table.contains(name),
    ensures
        frame_index(longer, name) == frame_index(table, name),
        0 <= frame_index(table, name) < table.len(),
{
    let i = frame_index(table, name);
    assert(longer[i] == longer.subrange(0, table.len() as int)[i]);
    lemma_frame_index_at(longer, name, i);
}

/// Interning a list of names in two parts is interning the whole list.
pub proof fn lemma_intern_all_concat(
    table: Seq<Seq<char>>,
    first: Seq<Seq<char>>,
    second: Seq<Seq<char>>,
)
    ensures
        intern_all(table, first + second) == intern_all(intern_all(table, first), second),
    decreases second.len(),
{
    if second.len() == 0 {
        assert(first + second == first);
    } else {
        assert((first + second).drop_last() == first + second.drop_last());
        assert((first + second).last() == second.last());
        lemma_intern_all_concat(table, first, second.drop_last());
    }
}

/// Interning one more name after a list of names.
pub proof fn lemma_intern_all_push(table: Seq<Seq<char>>, names: Seq<Seq<char>>, name: Seq<char>)
    ensures
        intern_all(table, names.push(name)) == intern_one(intern_all(table, names), name),
{
    assert(names.push(name).drop_last() == names);
}

/// Interning only ever adds behind what the table holds: it keeps the table
/// free of repetitions, and afterwards the table holds exactly its old
/// entries and the names that were interned.
pub proof fn lemma_intern_all_grows(table: Seq<Seq<char>>, names: Seq<Seq<char>>)
    requires
        table.no_duplicates(),
    ensures
        intern_all(table, names).no_duplicates(),
        table.is_prefix_of(intern_all(table, names)),
        covers(intern_all(table, names), names),
        forall|name: Seq<char>|
            intern_all(table, names).contains(name) <==> table.contains(name) || names.contains(
                name,
            ),
    decreases names.len(),
{
    let result = intern_all(table, names);
    if names.len() == 0 {
        assert(table.subrange(0, table.len() as int) == table);
    } else {
        let before = intern_all(table, names.drop_last());
        let name = names.last();
        lemma_intern_all_grows(table, names.drop_last());
        assert(forall|i: int| 0 <= i < before.len() ==> result[i] == before[i]);
        assert(table.is_prefix_of(result)) by {
            assert forall|i: int| 0 <= i < table.len() implies table[i] == result[i] by {
                assert(table[i] == before.subrange(0, table.len() as int)[i]);
            }
            assert(table =~= result.subrange(0, table.len() as int));
        }
        assert(result.contains(name)) by {
            if before.contains(name) {
            } else {
                assert(result[before.len() as int] == name);
            }
        }
        assert forall|k: int| 0 <= k < names.len() implies result.contains(#[trigger] names[k]) by {
            if k < names.len() - 1 {
                assert(names.drop_last()[k] == names[k]);
                assert(before.contains(names[k]));
                let i = before.index_of(names[k]);
                assert(result[i] == names[k]);
            }
        }
        assert forall|x: Seq<char>| result.contains(x) <==> table.contains(x) || names.contains(
            x,
        ) by {
            if result.contains(x) {
                let i = result.index_of(x);
                if i < before.len() {
                    assert(before[i] == x);
                    assert(before.contains(x));
                    if !table.contains(x) {
                        let k = names.drop_last().index_of(x);
                        assert(names[k] == x);
                    }
                } else {
                    assert(x == name);
                    assert(names[names.len() - 1] == x);
                }
            }
            if table.contains(x) {
                assert(before.contains(x));
                let i = before.index_of(x);
                assert(result[i] == x);
            }
            if names.contains(x) {
                let k = names.index_of(x);
                assert(result.contains(names[k]));
            }
        }
    }
}

/// Interning a name a second time gives the place it got the first time and
/// leaves the table as it is, whatever was interned in between.
pub proof fn intern_again_gives_same_index(
    table: Seq<Seq<char>>,
    name: Seq<char>,
    between: Seq<Seq<char>>,
)
    requires
        table.no_duplicates(),
    ensures
        intern_one(intern_all(intern_one(table, name), between), name) == intern_all(
            intern_one(table, name),
            between,
        ),
        frame_index(intern_all(intern_one(table, name), between), name) == frame_index(
            intern_one(table, name),
            name,
        ),
{
    let first = intern_one(table, name);
    assert(first.contains(name) && first.no_duplicates()) by {
        if !table.contains(name) {
            assert(first[table.len() as int] == name);
        }
    }
    lemma_intern_all_grows(first, between);
    lemma_frame_index_stable(first, intern_all(first, between), name);
}

/// Two different names of a table stand at different places.
pub proof fn different_names_have_different_indices(
    table: Seq<Seq<char>>,
    first: Seq<char>,
    second: Seq<char>,
)
    requires
        table.contains(first),
        table.contains(second),
        first != second,
    ensures
        frame_index(table, first) != frame_index(table, second),
{
}

/// The places are handed out in the order in which the names are first seen,
/// from 0 on and without gaps: a name gets as its place the number of
/// different names that were seen before it.
pub proof fn index_counts_names_seen_before(names: Seq<Seq<char>>, position: int)
    requires
        first_seen(names, position),
    ensures
        frame_index(intern_all(Seq::empty(), names), names[position]) == intern_all(
            Seq::empty(),
            names.take(position),
        ).len(),
        frame_index(intern_all(Seq::empty(), names), names[position]) == names.take(
            position,
        ).to_set().len(),
{
    let name = names[position];
    let before = names.take(position);
    let table_before = intern_all(Seq::empty(), before);
    let upto = names.take(position + 1);
    let table_upto = intern_all(Seq::empty(), upto);
    let rest = names.skip(position + 1);
    let table = intern_all(Seq::empty(), names);
    lemma_intern_all_grows(Seq::empty(), before);
    assert(!before.contains(name)) by {
        if before.contains(name) {
            let q = before.index_of(name);
            assert(names[q] == name);
        }
    }
    assert(upto == before.push(name));
    lemma_intern_all_push(Seq::empty(), before, name);
    assert(table_upto == table_before.push(name));
    lemma_intern_all_grows(Seq::empty(), upto);
    assert(names == upto + rest);
    lemma_intern_all_concat(Seq::empty(), upto, rest);
    lemma_intern_all_grows(table_upto, rest);
    assert(table[table_before.len() as int] == table_upto.subrange(
        0,
        table_upto.len() as int,
    )[table_before.len() as int]);
    lemma_frame_index_at(table, name, table_before.len() as int);
    assert(table_before.to_set() =~= before.to_set());
    table_before.unique_seq_to_set();
}

/// Of two names, the one that is first seen earlier gets the smaller place.
pub proof fn indices_follow_first_appearance(names: Seq<Seq<char>>, earlier: int, later: int)
    requires
        first_seen(names, earlier),
        first_seen(names, later),
        earlier < later,
    ensures
        frame_index(intern_all(Seq::empty(), names), names[earlier]) < frame_index(
            intern_all(Seq::empty(), names),
            names[later],
        ),
{
    index_counts_names_seen_before(names, earlier);
    index_counts_names_seen_before(names, later);
    let upto = names.take(earlier + 1);
    let between = names.subrange(earlier + 1, later);
    assert(names.take(later) == upto + between);
    assert(upto == names.take(earlier).push(names[earlier]));
    lemma_intern_all_push(Seq::empty(), names.take(earlier), names[earlier]);
    lemma_intern_all_grows(Seq::empty(), names.take(earlier));
    assert(!names.take(earlier).contains(names[earlier])) by {
        if names.take(earlier).contains(names[earlier]) {
            let q = names.take(earlier).index_of(names[earlier]);
            assert(names[q] == names[earlier]);
        }
    }
    lemma_intern_all_grows(Seq::empty(), upto);
    lemma_intern_all_concat(Seq::empty(), upto, between);
    lemma_intern_all_grows(intern_all(Seq::empty(), upto), between);
}

/// The table of frames under construction. Its view is the list of the names
/// interned so far, each once, in the order in which they were first seen.
pub struct FrameTable {
    names: IndexSet<String>,
}

impl View for FrameTable {
    type V = Seq<Seq<char>>;

    closed spec fn view(&self) -> Seq<Seq<char>> {
        set_items(self.names)
    }
}

impl FrameTable {
    /// No name stands in the table twice.
    pub open spec fn wf(&self) -> bool {
        self@.no_duplicates()
    }

    /// The empty table.
    pub fn new() -> (table: FrameTable)
        ensures
            table.wf(),
            table@ == Seq::<Seq<char>>::empty(),
    {
        FrameTable { names: set_new() }
    }

    /// The place of `name` in the table. A name that the table does not know
    /// yet becomes its last entry; a known name leaves the table unchanged.
    pub fn intern(&mut self, name: &str) -> (index: usize)
        requires
            old(self).wf(),
        ensures
            final(self).wf(),
            final(self)@ == intern_one(old(self)@, name@),
            index == frame_index(final(self)@, name@),
            index < final(self)@.len(),
            final(self)@[index as int] == name@,
    {
        let r = set_insert_full(&mut self.names, str::to_owned(name));
        proof {
            lemma_frame_index_at(self@, name@, r.0 as int);
        }
        r.0
    }

    /// The number of names in the table.
    pub fn len(&self) -> (n: usize)
        ensures
            n == self@.len(),
    {
        set_len(&self.names)
    }

    /// The frames of the table, in the table's order: one for each name, with
    /// no place in a source file.
    pub fn frames(&self) -> (frames: Vec<Frame>)
        ensures
            frames@.map_values(|f: Frame| f@) == frames_of(self@),
    {
        let n = set_len(&self.names);
        let mut frames: Vec<Frame> = Vec::new();
        let mut i: usize = 0;
        while i < n
            invariant
                n == self@.len(),
                0 <= i <= n,
                frames@.len() == i,
                forall|k: int| 0 <= k < i ==> (#[trigger] frames@[k])@ == FrameView::named(self@[k]),
            decreases n - i,
        {
            let text = set_get_index(&self.names, i).unwrap();
            frames.push(Frame::new(Cow::Owned(text.clone())));
            i = i + 1;
        }
        assert(frames@.map_values(|f: Frame| f@) =~= frames_of(self@));
        frames
    }
}

} // verus!
