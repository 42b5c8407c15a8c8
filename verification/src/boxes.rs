//! The five boxes of a training session and the entries that graduated out of
//! the last one: how they are read and written, and how an entry is selected
//! and moved.

use crate::entry::{has_separator, Entry, EntryView, SideMissingError};
use crate::files::{
    all_parse, box_name, box_name_spec, files_read, finished_name, first_malformed, parse_lines,
    parsed, read_from, readable, save_box, text_of, BoxFile, LoadError,
};
use crate::model::{
    box_of_draw, lemma_move_keeps_entries, BoxesView, Selection, BOX_COUNT, DRAW_LIMIT,
};
use rand::Rng;
use vstd::prelude::*;
use vstd::string::*;

verus! {

/// The room for entries that a new box is made with.
pub const BOX_DEFAULT_CAPACITY: usize = 10;

/// Calls `gen_range(0, len)` of `rand::Rng` on `rand::thread_rng()`. The
/// contract claims what that method documents: the number lies in the
/// half-open range, so that it is a position below `len`. It leaves out
/// `len == 0`, on which the method panics, and says nothing of which
/// position comes.
#[verifier::external_body]
fn random_position(len: usize) -> (position: usize)
    requires
        len > 0,
    ensures
        position < len,
{
    rand::thread_rng().gen_range(0, len)
}

/// Five boxes of entries, and the entries that left the last box for good.
pub struct Boxes {
    boxes: [Vec<Entry>; 5],
    finished: Vec<Entry>,
}

impl View for Boxes {
    type V = BoxesView;

    closed spec fn view(&self) -> BoxesView {
        BoxesView { boxes: self.boxes.deep_view(), finished: self.finished.deep_view() }
    }
}

/// An entry picked for a question: its text, and where it was found.
#[derive(Debug)]
pub struct SelectedEntry {
    pub lhs: String,
    pub rhs: String,
    pub box_i: usize,
    pub entry_i: usize,
}

impl SelectedEntry {
    /// The entry that was picked.
    pub open spec fn entry(&self) -> EntryView {
        EntryView { lhs: self.lhs@, rhs: self.rhs@ }
    }
}

impl Boxes {
    /// A collection has five boxes.
    pub proof fn lemma_wf(&self)
        ensures
            self@.wf(),
    {
    }

    /// Five empty boxes, and no finished entry.
    pub fn new() -> (boxes: Boxes)
        ensures
            boxes@ == BoxesView::empty(),
    {
        let boxes = Boxes {
            boxes: [
                Vec::with_capacity(BOX_DEFAULT_CAPACITY),
                Vec::with_capacity(BOX_DEFAULT_CAPACITY),
                Vec::with_capacity(BOX_DEFAULT_CAPACITY),
                Vec::with_capacity(BOX_DEFAULT_CAPACITY),
                Vec::with_capacity(BOX_DEFAULT_CAPACITY),
            ],
            finished: Vec::with_capacity(BOX_DEFAULT_CAPACITY),
        };
        assert(boxes@.boxes =~~= BoxesView::empty().boxes);
        assert(boxes@.finished =~= BoxesView::empty().finished);
        boxes
    }

    /// Reads a collection from the lines of its files: `files[i]` holds the
    /// lines of box `i`, and `files[5]`, where it is there, those of the
    /// finished entries. What follows is not read. With fewer than five boxes
    /// nothing is read; otherwise the lines are read in order, and the first
    /// one without a separator ends the reading.
    pub fn from_files(files: &Vec<Vec<String>>) -> (loaded: Result<Boxes, LoadError>)
        ensures
            loaded is Ok <==> readable(files.deep_view()),
            match loaded {
                Ok(boxes) => boxes@ == read_from(files.deep_view()),
                Err(LoadError::MissingBox { found }) => found == files.len() && files.len()
                    < BOX_COUNT,
                Err(LoadError::Malformed { box_i, line_i, cause }) => {
                    &&& files.len() >= BOX_COUNT
                    &&& box_i < files_read(files.len() as int)
                    &&& forall|i: int|
                        0 <= i < box_i ==> all_parse(#[trigger] files.deep_view()[i])
                    &&& first_malformed(files.deep_view()[box_i as int], line_i as int)
                },
            },
    {
        if files.len() < BOX_COUNT {
            return Err(LoadError::MissingBox { found: files.len() });
        }
        let mut boxes = Boxes::new();
        let mut box_i: usize = 0;
        while box_i < BOX_COUNT
            invariant
                box_i <= BOX_COUNT <= files.len(),
                forall|i: int| 0 <= i < box_i ==> all_parse(#[trigger] files.deep_view()[i]),
                forall|i: int|
                    0 <= i < box_i ==> boxes.boxes@[i].deep_view() == parsed(
                        #[trigger] files.deep_view()[i],
                    ),
                boxes@.finished == Seq::<EntryView>::empty(),
            decreases BOX_COUNT - box_i,
        {
            match parse_lines(&files[box_i]) {
                Ok(entries) => {
                    boxes.boxes[box_i] = entries;
                },
                Err(line_i) => {
                    assert(!all_parse(files.deep_view()[box_i as int])) by {
                        assert(!has_separator(files.deep_view()[box_i as int][line_i as int]));
                    }
                    return Err(
                        LoadError::Malformed { box_i, line_i, cause: SideMissingError {  } },
                    );
                },
            }
            box_i += 1;
        }
        if files.len() > BOX_COUNT {
            match parse_lines(&files[BOX_COUNT]) {
                Ok(entries) => {
                    boxes.finished = entries;
                },
                Err(line_i) => {
                    assert(!all_parse(files.deep_view()[BOX_COUNT as int])) by {
                        assert(!has_separator(files.deep_view()[BOX_COUNT as int][line_i as int]));
                    }
                    return Err(
                        LoadError::Malformed {
                            box_i: BOX_COUNT,
                            line_i,
                            cause: SideMissingError {  },
                        },
                    );
                },
            }
        }
        assert(boxes@.boxes =~= read_from(files.deep_view()).boxes);
        Ok(boxes)
    }

    /// The files of the collection: one for each box, in order, under the
    /// box's name, and last the one of the finished entries. Each holds its
    /// entries in order, one line each.
    pub fn save(&self) -> (files: Vec<BoxFile>)
        ensures
            files.len() == BOX_COUNT + 1,
            forall|i: int|
                0 <= i < BOX_COUNT ==> (#[trigger] files[i]).name@ == box_name_spec(i as nat)
                    && files[i].text@ == text_of(self@.boxes[i]),
            files[BOX_COUNT as int].name@ == finished_name(),
            files[BOX_COUNT as int].text@ == text_of(self@.finished),
    {
        proof {
            reveal_strlit("finished");
        }
        let mut files: Vec<BoxFile> = Vec::new();
        let mut box_i: usize = 0;
        while box_i < BOX_COUNT
            invariant
                box_i <= BOX_COUNT,
                files.len() == box_i,
                forall|i: int|
                    0 <= i < box_i ==> (#[trigger] files[i]).name@ == box_name_spec(i as nat)
                        && files[i].text@ == text_of(self@.boxes[i]),
            decreases BOX_COUNT - box_i,
        {
            files.push(BoxFile { name: box_name(box_i), text: save_box(&self.boxes[box_i]) });
            box_i += 1;
        }
        files.push(BoxFile { name: String::from_str("finished"), text: save_box(&self.finished) });
        assert("finished"@ =~= finished_name());
        files
    }

    /// The entries of box `box_i`, in order.
    pub fn entries(&self, box_i: usize) -> (entries: &Vec<Entry>)
        requires
            box_i < BOX_COUNT,
        ensures
            entries.deep_view() == self@.boxes[box_i as int],
    {
        &self.boxes[box_i]
    }

    /// The entries that left the last box, in the order in which they did.
    pub fn finished(&self) -> (entries: &Vec<Entry>)
        ensures
            entries.deep_view() == self@.finished,
    {
        &self.finished
    }

    /// Puts `entry` at the end of box `box_i`.
    pub fn add(&mut self, box_i: usize, entry: Entry)
        requires
            box_i < BOX_COUNT,
        ensures
            final(self)@.boxes == old(self)@.boxes.update(
                box_i as int,
                old(self)@.boxes[box_i as int].push(entry@),
            ),
            final(self)@.finished == old(self)@.finished,
    {
        self.boxes[box_i].push(entry);
        assert(final(self)@.boxes =~~= old(self)@.boxes.update(
            box_i as int,
            old(self)@.boxes[box_i as int].push(entry@),
        ));
    }

    /// Tells whether all five boxes are empty.
    pub fn is_empty(&self) -> (empty: bool)
        ensures
            empty == self@.is_empty(),
    {
        let mut box_i: usize = 0;
        while box_i < BOX_COUNT
            invariant
                box_i <= BOX_COUNT,
                forall|i: int| 0 <= i < box_i ==> (#[trigger] self@.boxes[i]).len() == 0,
            decreases BOX_COUNT - box_i,
        {
            if !self.boxes[box_i].is_empty() {
                assert(self@.boxes[box_i as int].len() > 0);
                return false;
            }
            box_i += 1;
        }
        true
    }

    /// The box that `draw` chooses, and `None` where it chooses none.
    pub fn select_random_box(draw: u64) -> (chosen: Option<usize>)
        ensures
            chosen == box_of_draw(draw),
            chosen is None <==> draw >= DRAW_LIMIT,
            chosen matches Some(box_i) ==> box_i < BOX_COUNT,
    {
        if draw >= DRAW_LIMIT {
            return None;
        }
        let mut i: usize = 0;
        while i < BOX_COUNT
            invariant
                i <= BOX_COUNT,
                draw < DRAW_LIMIT,
                i > 0 ==> draw < BOX_COUNT - i,
            decreases BOX_COUNT - i,
        {
            let box_n: usize = BOX_COUNT - 1 - i;
            if draw >= box_n as u64 {
                return Some(box_n);
            }
            i += 1;
        }
        Some(0)
    }

    /// The box that `draw` chooses among those that hold an entry: nothing
    /// where all are empty, whatever the draw; another draw where this one
    /// chose no box or an empty one.
    pub fn select_random_nonempty_box(&self, draw: u64) -> (chosen: Selection<usize>)
        ensures
            chosen == self@.box_chosen(draw),
            chosen is Empty <==> self@.is_empty(),
    {
        if self.is_empty() {
            return Selection::Empty;
        }
        match Boxes::select_random_box(draw) {
            Some(box_i) => {
                if !self.boxes[box_i].is_empty() {
                    Selection::Selected(box_i)
                } else {
                    Selection::Retry
                }
            },
            None => Selection::Retry,
        }
    }

    /// Selects an entry of the box that `draw` chooses, at a random position
    /// of that box.
    pub fn select_random_entry(&self, draw: u64) -> (selected: Selection<SelectedEntry>)
        ensures
            selected is Empty <==> self@.is_empty(),
            match selected {
                Selection::Empty => self@.box_chosen(draw) is Empty,
                Selection::Retry => self@.box_chosen(draw) is Retry,
                Selection::Selected(e) => self@.box_chosen(draw) == Selection::Selected(e.box_i)
                    && self.holds(&e),
            },
    {
        match self.select_random_nonempty_box(draw) {
            Selection::Empty => Selection::Empty,
            Selection::Retry => Selection::Retry,
            Selection::Selected(box_i) => {
                let entry_i = random_position(self.boxes[box_i].len());
                Selection::Selected(self.select_entry(box_i, entry_i))
            },
        }
    }

    /// Selects the entry at position `entry_i` of box `box_i`.
    pub fn select_entry(&self, box_i: usize, entry_i: usize) -> (selected: SelectedEntry)
        requires
            self@.has_slot(box_i as int, entry_i as int),
        ensures
            selected.box_i == box_i,
            selected.entry_i == entry_i,
            selected.entry() == self@.boxes[box_i as int][entry_i as int],
    {
        let e = &self.boxes[box_i][entry_i];
        SelectedEntry { lhs: e.lhs.clone(), rhs: e.rhs.clone(), box_i: box_i, entry_i: entry_i }
    }

    /// `selected` still names an entry of this collection: its box exists, the
    /// box has an entry at its position, and that entry has its text.
    pub open spec fn holds(&self, selected: &SelectedEntry) -> bool {
        &&& self@.has_slot(selected.box_i as int, selected.entry_i as int)
        &&& self@.boxes[selected.box_i as int][selected.entry_i as int] == selected.entry()
    }

    /// Tells whether `selected` still names an entry of this collection.
    pub fn contains(&self, selected: &SelectedEntry) -> (held: bool)
        ensures
            held == self.holds(selected),
    {
        if selected.box_i >= BOX_COUNT {
            return false;
        }
        let entries = &self.boxes[selected.box_i];
        if selected.entry_i >= entries.len() {
            return false;
        }
        let e = &entries[selected.entry_i];
        e.lhs == selected.lhs && e.rhs == selected.rhs
    }

    /// Moves the selected entry after an answer: one box forward if it was
    /// right, out of the last box to the finished entries; one box back if it
    /// was wrong, and nowhere from the first box. The entry joins the end of
    /// its new place before it leaves the old one.
    pub fn move_entry(&mut self, e: SelectedEntry, successful: bool)
        requires
            old(self).holds(&e),
        ensures
            final(self)@ == old(self)@.moved(e.box_i as int, e.entry_i as int, successful),
            final(self)@.all_entries() == old(self)@.all_entries(),
    {
        let box_i: usize = e.box_i;
        let entry_i: usize = e.entry_i;
        let expected_entry = Entry { lhs: e.lhs, rhs: e.rhs };
        if successful {
            if box_i == BOX_COUNT - 1 {
                self.finished.push(expected_entry);
            } else {
                self.boxes[box_i + 1].push(expected_entry);
            }
            self.boxes[box_i].remove(entry_i);
        } else if box_i > 0 {
            self.boxes[box_i - 1].push(expected_entry);
            self.boxes[box_i].remove(entry_i);
        }
        proof {
            let target = old(self)@.moved(box_i as int, entry_i as int, successful);
            assert(final(self)@.boxes =~~= target.boxes);
            assert(final(self)@.finished =~= target.finished);
            lemma_move_keeps_entries(old(self)@, box_i as int, entry_i as int, successful);
        }
    }
}

} // verus!
