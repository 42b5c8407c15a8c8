//! The files of a collection: their names, what they hold, and how their
//! lines are read.

use crate::entry::{
    ends_with_half_separator, has_separator, lemma_parse_serialize,
    lemma_parse_some_iff_separator, parse_spec, serialize_spec, Entry, EntryView,
    SideMissingError,
};
use crate::model::{BoxesView, BOX_COUNT};
use crate::text::{decimal, decimal_string, join_lines};
use vstd::prelude::*;
use vstd::string::*;

verus! {

/// The name of the file of box `box_i`: the word `box` and the box's number,
/// which counts from one.
pub open spec fn box_name_spec(box_i: nat) -> Seq<char> {
    seq!['b', 'o', 'x'] + decimal(box_i + 1)
}

/// The name of the file of the finished entries.
pub open spec fn finished_name() -> Seq<char> {
    seq!['f', 'i', 'n', 'i', 's', 'h', 'e', 'd']
}

/// The lines of the entries, in the same order.
pub open spec fn lines_of(entries: Seq<EntryView>) -> Seq<Seq<char>> {
    Seq::new(entries.len(), |i: int| serialize_spec(entries[i]))
}

/// The body of the file that holds the entries: one line each, in order.
pub open spec fn text_of(entries: Seq<EntryView>) -> Seq<char> {
    join_lines(lines_of(entries))
}

/// A file of a saved collection.
#[derive(Debug)]
pub struct BoxFile {
    pub name: String,
    pub text: String,
}

/// The name of the file of box `box_i`.
pub fn box_name(box_i: usize) -> (name: String)
    requires
        box_i < usize::MAX,
    ensures
        name@ == box_name_spec(box_i as nat),
{
    proof {
        reveal_strlit("box");
    }
    let mut name = String::from_str("box");
    let number = decimal_string(box_i + 1);
    name.append(number.as_str());
    assert("box"@ =~= seq!['b', 'o', 'x']);
    name
}

/// Tells whether `name` is among `names`.
fn has_name(names: &Vec<String>, name: &String) -> (found: bool)
    ensures
        found == names.deep_view().contains(name@),
{
    let mut i: usize = 0;
    while i < names.len()
        invariant
            i <= names.len(),
            forall|k: int| 0 <= k < i ==> names.deep_view()[k] != name@,
        decreases names.len() - i,
    {
        if names[i] == *name {
            assert(names.deep_view()[i as int] == name@);
            return true;
        }
        i += 1;
    }
    false
}

/// The boxes whose file is not among `names`, in rising order. These are the
/// files to make before a collection can be read from the directory that
/// holds `names`.
pub fn missing_boxes(names: &Vec<String>) -> (missing: Vec<usize>)
    ensures
        forall|box_i: int|
            0 <= box_i < BOX_COUNT ==> (missing@.contains(box_i as usize)
                <==> !names.deep_view().contains(#[trigger] box_name_spec(box_i as nat))),
        forall|k: int| 0 <= k < missing.len() ==> missing[k] < BOX_COUNT,
        forall|j: int, k: int| 0 <= j < k < missing.len() ==> missing[j] < missing[k],
{
    let mut missing: Vec<usize> = Vec::new();
    let mut box_i: usize = 0;
    while box_i < BOX_COUNT
        invariant
            box_i <= BOX_COUNT,
            forall|i: int|
                0 <= i < box_i ==> (missing@.contains(i as usize) <==> !names.deep_view().contains(
                    #[trigger] box_name_spec(i as nat),
                )),
            forall|k: int| 0 <= k < missing.len() ==> missing[k] < box_i,
            forall|j: int, k: int| 0 <= j < k < missing.len() ==> missing[j] < missing[k],
        decreases BOX_COUNT - box_i,
    {
        let name = box_name(box_i);
        let ghost before = missing@;
        if !has_name(names, &name) {
            missing.push(box_i);
            assert(missing@.last() == box_i);
        }
        proof {
            assert forall|i: int| 0 <= i <= box_i implies (missing@.contains(i as usize)
                <==> !names.deep_view().contains(#[trigger] box_name_spec(i as nat))) by {
                if before.contains(i as usize) {
                    let k = choose|k: int| 0 <= k < before.len() && before[k] == i as usize;
                    assert(missing@[k] == i as usize);
                }
                if missing@.contains(i as usize) && i < box_i {
                    let k = choose|k: int| 0 <= k < missing@.len() && missing@[k] == i as usize;
                    assert(before[k] == i as usize);
                }
            }
        }
        box_i += 1;
    }
    missing
}

/// The body of the file that holds `entries`.
pub(crate) fn save_box(entries: &Vec<Entry>) -> (text: String)
    ensures
        text@ == text_of(entries.deep_view()),
{
    let mut text = String::new();
    let mut entry_i: usize = 0;
    while entry_i < entries.len()
        invariant
            entry_i <= entries.len(),
            text@ == text_of(entries.deep_view().take(entry_i as int)),
        decreases entries.len() - entry_i,
    {
        if entry_i != 0 {
            text.append("\n");
        }
        let line = entries[entry_i].serialize();
        text.append(line.as_str());
        entry_i += 1;
        proof {
            let all = entries.deep_view();
            let now = lines_of(all.take(entry_i as int));
            assert(now.drop_last() =~= lines_of(all.take(entry_i - 1)));
            assert(now.last() == line@);
            reveal_strlit("\n");
            assert("\n"@ =~= seq!['\n']);
            assert(text@ =~= join_lines(now));
        }
    }
    assert(entries.deep_view().take(entry_i as int) =~= entries.deep_view());
    text
}

/// Why a collection could not be read.
#[derive(Debug, PartialEq, Eq)]
pub enum LoadError {
    /// Fewer than five boxes were given: `found` of them.
    MissingBox { found: usize },
    /// Line `line_i` of box `box_i` holds no separator.
    Malformed { box_i: usize, line_i: usize, cause: SideMissingError },
}

/// Every line holds a separator, so that each stands for an entry.
pub open spec fn all_parse(lines: Seq<Seq<char>>) -> bool {
    forall|i: int| 0 <= i < lines.len() ==> has_separator(#[trigger] lines[i])
}

/// The entries that the lines stand for, in the same order.
pub open spec fn parsed(lines: Seq<Seq<char>>) -> Seq<EntryView> {
    Seq::new(lines.len(), |i: int| parse_spec(lines[i])->0)
}

/// Line `line_i` is the first of `lines` that holds no separator.
pub open spec fn first_malformed(lines: Seq<Seq<char>>, line_i: int) -> bool {
    &&& 0 <= line_i < lines.len()
    &&& !has_separator(lines[line_i])
    &&& all_parse(lines.take(line_i))
}

/// The line of `entry` is read back as `entry`: neither side holds the
/// separator, and the left side does not end in a space and an equals sign.
pub open spec fn reads_back(entry: EntryView) -> bool {
    &&& !has_separator(entry.lhs)
    &&& !has_separator(entry.rhs)
    &&& !ends_with_half_separator(entry.lhs)
}

/// What was written is read back: where each entry's line is read back as the
/// entry, the lines of a box stand for the entries of the box, in order.
pub proof fn lemma_lines_read_back(entries: Seq<EntryView>)
    requires
        forall|i: int| 0 <= i < entries.len() ==> reads_back(#[trigger] entries[i]),
    ensures
        all_parse(lines_of(entries)),
        parsed(lines_of(entries)) == entries,
{
    let lines = lines_of(entries);
    assert forall|i: int| 0 <= i < lines.len() implies has_separator(#[trigger] lines[i])
        && parse_spec(lines[i]) == Some(entries[i]) by {
        assert(reads_back(entries[i]));
        lemma_parse_serialize(entries[i]);
        lemma_parse_some_iff_separator(lines[i]);
    }
    assert(parsed(lines) =~= entries);
}

/// How many of `given` files are read: the five boxes and, where there is a
/// sixth file, the finished entries.
pub open spec fn files_read(given: int) -> int {
    if given > BOX_COUNT {
        BOX_COUNT + 1
    } else {
        given
    }
}

/// The files can be read: there are at least five of them, and every line of
/// those that are read holds a separator.
pub open spec fn readable(files: Seq<Seq<Seq<char>>>) -> bool {
    &&& files.len() >= BOX_COUNT
    &&& forall|i: int| 0 <= i < files_read(files.len() as int) ==> all_parse(#[trigger] files[i])
}

/// The collection that the files stand for: `files[i]` holds the lines of box
/// `i`, and `files[5]`, where it is there, those of the finished entries.
pub open spec fn read_from(files: Seq<Seq<Seq<char>>>) -> BoxesView {
    BoxesView {
        boxes: Seq::new(BOX_COUNT as nat, |i: int| parsed(files[i])),
        finished: if files.len() > BOX_COUNT {
            parsed(files[BOX_COUNT as int])
        } else {
            Seq::empty()
        },
    }
}

/// The lines of a collection's files: those of the five boxes, then those of
/// the finished entries.
pub open spec fn written_lines(boxes: BoxesView) -> Seq<Seq<Seq<char>>> {
    Seq::new(
        BOX_COUNT as nat + 1,
        |i: int|
            if i < BOX_COUNT {
                lines_of(boxes.boxes[i])
            } else {
                lines_of(boxes.finished)
            },
    )
}

/// A collection is read back from the lines that were written of it, where
/// each of its entries is read back from its line.
pub proof fn lemma_collection_read_back(boxes: BoxesView)
    requires
        boxes.wf(),
        forall|i: int, j: int|
            0 <= i < BOX_COUNT && 0 <= j < boxes.boxes[i].len() ==> reads_back(
                #[trigger] boxes.boxes[i][j],
            ),
        forall|j: int| 0 <= j < boxes.finished.len() ==> reads_back(#[trigger] boxes.finished[j]),
    ensures
        readable(written_lines(boxes)),
        read_from(written_lines(boxes)) == boxes,
{
    let files = written_lines(boxes);
    assert forall|i: int| 0 <= i < BOX_COUNT implies all_parse(#[trigger] files[i]) && parsed(
        files[i],
    ) == boxes.boxes[i] by {
        lemma_lines_read_back(boxes.boxes[i]);
    }
    lemma_lines_read_back(boxes.finished);
    assert(files[BOX_COUNT as int] == lines_of(boxes.finished));
    assert(read_from(files).boxes =~= boxes.boxes);
}

/// Reads the entries of one box from its lines; at the first line without a
/// separator it stops and gives that line's index.
pub(crate) fn parse_lines(lines: &Vec<String>) -> (read: Result<Vec<Entry>, usize>)
    ensures
        match read {
            Ok(entries) => all_parse(lines.deep_view()) && entries.deep_view() == parsed(
                lines.deep_view(),
            ),
            Err(line_i) => first_malformed(lines.deep_view(), line_i as int),
        },
{
    let mut entries: Vec<Entry> = Vec::new();
    let mut i: usize = 0;
    while i < lines.len()
        invariant
            i <= lines.len(),
            entries.len() == i,
            all_parse(lines.deep_view().take(i as int)),
            entries.deep_view() == parsed(lines.deep_view().take(i as int)),
        decreases lines.len() - i,
    {
        let ghost before = entries.deep_view();
        match Entry::parse(lines[i].as_str()) {
            Ok(entry) => {
                entries.push(entry);
            },
            Err(_) => {
                return Err(i);
            },
        }
        i += 1;
        proof {
            let all = lines.deep_view();
            let now = all.take(i as int);
            assert(now[i - 1] == lines[i - 1]@);
            assert forall|k: int| 0 <= k < i implies has_separator(#[trigger] now[k]) by {
                if k < i - 1 {
                    assert(now[k] == all.take(i - 1)[k]);
                }
            }
            assert forall|k: int| 0 <= k < i implies entries.deep_view()[k] == parsed(now)[k] by {
                if k < i - 1 {
                    assert(entries.deep_view()[k] == before[k]);
                    assert(now[k] == all.take(i - 1)[k]);
                }
            }
            assert(entries.deep_view() =~= parsed(now));
        }
    }
    proof {
        let all = lines.deep_view();
        assert(all.take(i as int) =~= all);
    }
    Ok(entries)
}

} // verus!
