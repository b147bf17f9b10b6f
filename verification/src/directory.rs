//! The files of a tree's directory as plain values: which of them are
//! tables, in what order they were made, and the largest sequence number
//! among them.

use vstd::prelude::*;
use crate::lexical::{lemma_lex_asymmetric, lemma_lex_transitive, lex_lt, lex_order, KeyOrder};
use crate::ordered::strictly_ascending;
use crate::naming::{is_table_file_name, is_table_name, number_of};

verus! {

/// A file of the directory: its name and its bytes.
#[derive(Debug)]
pub struct TableFile {
    /// The file's name, without the directory.
    pub name: Vec<u8>,
    /// The file's bytes.
    pub image: Vec<u8>,
}

/// A file as the contracts see it: name and bytes.
pub type FileView = (Seq<u8>, Seq<u8>);

impl View for TableFile {
    type V = FileView;

    open spec fn view(&self) -> FileView {
        (self.name@, self.image@)
    }
}

/// The files of a vector as the contracts see them.
pub open spec fn file_views(files: Seq<TableFile>) -> Seq<FileView> {
    Seq::new(files.len(), |i: int| files[i]@)
}

/// The files whose names are table names, in the order given.
pub open spec fn table_files(files: Seq<FileView>) -> Seq<FileView>
    decreases files.len(),
{
    if files.len() == 0 {
        Seq::empty()
    } else if is_table_name(files.last().0) {
        table_files(files.drop_last()).push(files.last())
    } else {
        table_files(files.drop_last())
    }
}

/// Where a file of the given name goes among files in ascending order of
/// name: before the first whose name sorts after it.
pub open spec fn position_for(sorted: Seq<FileView>, name: Seq<u8>) -> int
    decreases sorted.len(),
{
    if sorted.len() == 0 || lex_lt(name, sorted[0].0) {
        0
    } else {
        1 + position_for(sorted.drop_first(), name)
    }
}

/// The files in ascending order of name. Files of one name keep the order
/// in which they were given.
pub open spec fn by_name(files: Seq<FileView>) -> Seq<FileView>
    decreases files.len(),
{
    if files.len() == 0 {
        Seq::empty()
    } else {
        let rest = by_name(files.drop_last());
        rest.insert(position_for(rest, files.last().0), files.last())
    }
}

/// The sequence number that a table file counts with: the one its name
/// carries, or 0 where the name carries none.
pub open spec fn counted_number(name: Seq<u8>) -> usize {
    match number_of(name) {
        Some(n) => n,
        None => 0,
    }
}

/// The largest sequence number among the names of table files, 0 where
/// there is none.
pub open spec fn largest_number(files: Seq<FileView>) -> usize
    decreases files.len(),
{
    if files.len() == 0 {
        0
    } else {
        let rest = largest_number(files.drop_last());
        if counted_number(files.last().0) > rest {
            counted_number(files.last().0)
        } else {
            rest
        }
    }
}

/// The place of `name` lies inside the sequence.
pub proof fn lemma_position_in_range(sorted: Seq<FileView>, name: Seq<u8>)
    ensures
        0 <= position_for(sorted, name) <= sorted.len(),
    decreases sorted.len(),
{
    if sorted.len() > 0 && !lex_lt(name, sorted[0].0) {
        lemma_position_in_range(sorted.drop_first(), name);
    }
}

/// Keeps the files whose names are table names.
pub fn keep_table_files(files: Vec<TableFile>) -> (kept: Vec<TableFile>)
    ensures
        file_views(kept@) == table_files(file_views(files@)),
{
    let ghost given = files@;
    let ghost all = file_views(files@);
    let mut kept: Vec<TableFile> = Vec::new();
    for file in it: files
        invariant
            it.seq() == given,
            all == file_views(given),
            file_views(kept@) == table_files(all.take(it.index())),
    {
        proof {
            let n = it.index();
            assert(all.take(n + 1).drop_last() =~= all.take(n));
        }
        if is_table_file_name(file.name.as_slice()) {
            kept.push(file);
        }
    }
    proof {
        assert(all.take(all.len() as int) =~= all);
    }
    kept
}

/// Puts the files in ascending order of name: the same files, none before
/// one whose name sorts before its own, files of one name in the order
/// given.
pub fn sort_by_name(files: Vec<TableFile>) -> (sorted: Vec<TableFile>)
    ensures
        file_views(sorted@) == by_name(file_views(files@)),
        in_name_order(file_views(sorted@)),
        file_views(sorted@).to_multiset() == file_views(files@).to_multiset(),
{
    let ghost given = files@;
    let ghost all = file_views(files@);
    proof {
        lemma_by_name_in_order(all);
        lemma_by_name_rearranges(all);
    }
    let mut sorted: Vec<TableFile> = Vec::new();
    for file in it: files
        invariant
            it.seq() == given,
            all == file_views(given),
            file_views(sorted@) == by_name(all.take(it.index())),
    {
        let ghost held = file_views(sorted@);
        let mut pos: usize = 0;
        assert(held.subrange(0, held.len() as int) =~= held);
        while pos < sorted.len() && !matches!(
            lex_order(file.name.as_slice(), sorted[pos].name.as_slice()),
            KeyOrder::Before
        )
            invariant
                pos <= sorted.len(),
                held == file_views(sorted@),
                position_for(held, file@.0) == pos + position_for(
                    held.subrange(pos as int, held.len() as int),
                    file@.0,
                ),
            decreases sorted.len() - pos,
        {
            proof {
                let tail = held.subrange(pos as int, held.len() as int);
                assert(tail.drop_first() =~= held.subrange(pos + 1, held.len() as int));
            }
            pos += 1;
        }
        proof {
            let n = it.index();
            assert(all.take(n + 1).drop_last() =~= all.take(n));
        }
        sorted.insert(pos, file);
    }
    proof {
        assert(all.take(all.len() as int) =~= all);
    }
    sorted
}

/// Every file kept as a table file has a table name.
pub proof fn lemma_table_files_named(files: Seq<FileView>)
    ensures
        forall|i: int|
            0 <= i < table_files(files).len() ==> is_table_name(#[trigger] table_files(files)[i].0),
    decreases files.len(),
{
    if files.len() > 0 {
        lemma_table_files_named(files.drop_last());
        let rest = table_files(files.drop_last());
    }
}

/// Every file of the sorted sequence is one of the files given.
pub proof fn lemma_by_name_from(files: Seq<FileView>, i: int)
    requires
        0 <= i < by_name(files).len(),
    ensures
        exists|j: int| 0 <= j < files.len() && files[j] == by_name(files)[i],
    decreases files.len(),
{
    if files.len() > 0 {
        let rest = by_name(files.drop_last());
        let pos = position_for(rest, files.last().0);
        lemma_position_in_range(rest, files.last().0);
        if i != pos {
            let k = if i < pos { i } else { i - 1 };
            lemma_by_name_from(files.drop_last(), k);
        }
    }
}

/// Sorting files with table names gives files with table names.
pub proof fn lemma_by_name_keeps(files: Seq<FileView>)
    requires
        forall|i: int| 0 <= i < files.len() ==> is_table_name(#[trigger] files[i].0),
    ensures
        forall|i: int|
            0 <= i < by_name(files).len() ==> is_table_name(#[trigger] by_name(files)[i].0),
{
    assert forall|i: int| 0 <= i < by_name(files).len() implies is_table_name(
        #[trigger] by_name(files)[i].0,
    ) by {
        lemma_by_name_from(files, i);
    }
}

/// No file stands before one whose name sorts before its own.
pub open spec fn in_name_order(files: Seq<FileView>) -> bool {
    forall|i: int, j: int|
        0 <= i < j < files.len() ==> !lex_lt(#[trigger] files[j].0, #[trigger] files[i].0)
}

/// The place found for a name parts the files: no file before it has a name
/// that sorts after the name, and the file at it has one.
pub proof fn lemma_position_parts(sorted: Seq<FileView>, name: Seq<u8>)
    ensures
        forall|k: int|
            0 <= k < position_for(sorted, name) ==> !lex_lt(name, #[trigger] sorted[k].0),
        position_for(sorted, name) < sorted.len() ==> lex_lt(
            name,
            sorted[position_for(sorted, name)].0,
        ),
    decreases sorted.len(),
{
    if sorted.len() > 0 && !lex_lt(name, sorted[0].0) {
        let rest = sorted.drop_first();
        lemma_position_parts(rest, name);
        lemma_position_in_range(rest, name);
        assert forall|k: int| 0 <= k < position_for(sorted, name) implies !lex_lt(
            name,
            #[trigger] sorted[k].0,
        ) by {
            if k > 0 {
                assert(sorted[k] == rest[k - 1]);
            }
        }
    }
}

/// What sorting gives is in name order.
pub proof fn lemma_by_name_in_order(files: Seq<FileView>)
    ensures
        in_name_order(by_name(files)),
    decreases files.len(),
{
    if files.len() > 0 {
        let rest = by_name(files.drop_last());
        let x = files.last();
        let pos = position_for(rest, x.0);
        let all = by_name(files);
        lemma_by_name_in_order(files.drop_last());
        lemma_position_in_range(rest, x.0);
        lemma_position_parts(rest, x.0);
        assert forall|i: int, j: int| 0 <= i < j < all.len() implies !lex_lt(
            #[trigger] all[j].0,
            #[trigger] all[i].0,
        ) by {
            if i == pos && lex_lt(rest[j - 1].0, x.0) {
                lemma_lex_transitive(rest[j - 1].0, x.0, rest[pos].0);
                lemma_lex_asymmetric(rest[j - 1].0, rest[pos].0);
            }
        }
    }
}

/// Sorting rearranges: what it gives holds each file as often as it was
/// given.
pub proof fn lemma_by_name_rearranges(files: Seq<FileView>)
    ensures
        by_name(files).to_multiset() == files.to_multiset(),
    decreases files.len(),
{
    if files.len() > 0 {
        let rest = by_name(files.drop_last());
        let x = files.last();
        lemma_by_name_rearranges(files.drop_last());
        lemma_position_in_range(rest, x.0);
        assert(files.drop_last().push(x) =~= files);
        vstd::seq_lib::to_multiset_insert(rest, position_for(rest, x.0), x);
        vstd::seq_lib::to_multiset_build(files.drop_last(), x);
    } else {
        assert(files =~= Seq::<FileView>::empty());
    }
}

/// Files in name order that are a rearrangement of files with strictly
/// ascending names are those files, in their order.
pub proof fn lemma_name_order_is_unique(sorted: Seq<FileView>, ascending: Seq<FileView>)
    requires
        in_name_order(sorted),
        strictly_ascending(ascending),
        sorted.to_multiset() == ascending.to_multiset(),
    ensures
        sorted == ascending,
    decreases sorted.len(),
{
    broadcast use vstd::seq_lib::group_to_multiset_ensures;

    vstd::seq_lib::to_multiset_len(sorted);
    vstd::seq_lib::to_multiset_len(ascending);
    if sorted.len() > 0 {
        assert(sorted.to_multiset().contains(sorted[0]));
        assert(ascending.to_multiset().contains(ascending[0]));
        let i = choose|i: int| 0 <= i < sorted.len() && #[trigger] sorted[i] == ascending[0];
        let j = choose|j: int| 0 <= j < ascending.len() && #[trigger] ascending[j] == sorted[0];
        if j > 0 && i == 0 {
            lemma_lex_asymmetric(ascending[0].0, ascending[j].0);
        }
        assert(sorted[0] == ascending[0]);
        vstd::seq_lib::to_multiset_remove(sorted, 0);
        vstd::seq_lib::to_multiset_remove(ascending, 0);
        lemma_name_order_is_unique(sorted.drop_first(), ascending.drop_first());
        assert(ascending =~= seq![ascending[0]] + ascending.drop_first());
    }
}

/// However files with strictly ascending names are listed, sorting gives
/// them back in the order of their names.
pub proof fn lemma_by_name_restores(listed: Seq<FileView>, ascending: Seq<FileView>)
    requires
        strictly_ascending(ascending),
        listed.to_multiset() == ascending.to_multiset(),
    ensures
        by_name(listed) == ascending,
{
    lemma_by_name_in_order(listed);
    lemma_by_name_rearranges(listed);
    lemma_name_order_is_unique(by_name(listed), ascending);
}

} // verus!
