//! The collection as specifications see it, and the two rules of a session:
//! which box a draw chooses, and where an answer sends an entry.

use crate::entry::EntryView;
use vstd::multiset::Multiset;
use vstd::prelude::*;

verus! {

/// The number of boxes.
pub const BOX_COUNT: usize = 5;

/// A draw of this size or more chooses no box.
pub const DRAW_LIMIT: u64 = 6;

/// The box that a draw chooses. A draw is the whole part of a sample of the
/// log-normal distribution with parameters 0 and 1. From `DRAW_LIMIT` on it
/// chooses nothing and is to be repeated; below, it chooses the highest box
/// whose index it reaches, so that most draws fall on the first box and
/// fewest on the last.
pub open spec fn box_of_draw(draw: u64) -> Option<usize> {
    if draw >= DRAW_LIMIT {
        None
    } else if draw < BOX_COUNT {
        Some(draw as usize)
    } else {
        Some((BOX_COUNT - 1) as usize)
    }
}

/// What one draw settles.
#[derive(Debug, PartialEq, Eq)]
pub enum Selection<T> {
    /// All five boxes are empty: there is nothing to select.
    Empty,
    /// The draw chose no box, or an empty one: draw again.
    Retry,
    /// The draw chose this.
    Selected(T),
}

/// Where an entry goes after an answer.
pub ghost enum Target {
    /// To the end of the box of this index.
    Box(int),
    /// Out of the last box, to the end of the finished entries.
    Finished,
    /// Nowhere: it keeps its place.
    Stay,
}

/// Where an answer sends an entry of box `box_i`: a right answer one box
/// forward, and out of the last box to the finished entries; a wrong answer
/// one box back, and nowhere from the first box.
pub open spec fn target_of(box_i: int, successful: bool) -> Target {
    if successful {
        if box_i == BOX_COUNT - 1 {
            Target::Finished
        } else {
            Target::Box(box_i + 1)
        }
    } else {
        if box_i > 0 {
            Target::Box(box_i - 1)
        } else {
            Target::Stay
        }
    }
}

/// The entries of all `boxes` together, each as often as it occurs.
pub open spec fn entries_in(boxes: Seq<Seq<EntryView>>) -> Multiset<EntryView>
    decreases boxes.len(),
{
    if boxes.len() == 0 {
        Multiset::empty()
    } else {
        entries_in(boxes.drop_last()).add(boxes.last().to_multiset())
    }
}

/// What a collection is in specifications: the entries of each of the five
/// boxes, in the order in which they were put there, and the finished ones.
pub ghost struct BoxesView {
    pub boxes: Seq<Seq<EntryView>>,
    pub finished: Seq<EntryView>,
}

impl BoxesView {
    /// Five boxes and the finished entries, all empty.
    pub open spec fn empty() -> BoxesView {
        BoxesView {
            boxes: Seq::new(BOX_COUNT as nat, |i: int| Seq::empty()),
            finished: Seq::empty(),
        }
    }

    /// There are five boxes.
    pub open spec fn wf(self) -> bool {
        self.boxes.len() == BOX_COUNT
    }

    /// Box `box_i` exists and has an entry at position `entry_i`.
    pub open spec fn has_slot(self, box_i: int, entry_i: int) -> bool {
        0 <= box_i < BOX_COUNT && 0 <= entry_i < self.boxes[box_i].len()
    }

    /// No box holds an entry.
    pub open spec fn is_empty(self) -> bool {
        forall|i: int| 0 <= i < BOX_COUNT ==> (#[trigger] self.boxes[i]).len() == 0
    }

    /// The entries of the collection, each as often as it occurs, in whatever
    /// box it lies or among the finished ones.
    pub open spec fn all_entries(self) -> Multiset<EntryView> {
        entries_in(self.boxes).add(self.finished.to_multiset())
    }

    /// The box that `draw` chooses among the boxes that hold an entry.
    pub open spec fn box_chosen(self, draw: u64) -> Selection<usize> {
        if self.is_empty() {
            Selection::Empty
        } else {
            match box_of_draw(draw) {
                Some(box_i) => if self.boxes[box_i as int].len() > 0 {
                    Selection::Selected(box_i)
                } else {
                    Selection::Retry
                },
                None => Selection::Retry,
            }
        }
    }

    /// The collection after the entry at position `entry_i` of box `box_i` has
    /// left its place and joined the end of `target`.
    pub open spec fn sent(self, box_i: int, entry_i: int, target: Target) -> BoxesView {
        let entry = self.boxes[box_i][entry_i];
        let rest = self.boxes[box_i].remove(entry_i);
        match target {
            Target::Box(to) => BoxesView {
                boxes: self.boxes.update(to, self.boxes[to].push(entry)).update(box_i, rest),
                finished: self.finished,
            },
            Target::Finished => BoxesView {
                boxes: self.boxes.update(box_i, rest),
                finished: self.finished.push(entry),
            },
            Target::Stay => self,
        }
    }

    /// The collection after the answer to the entry at position `entry_i` of
    /// box `box_i` was judged.
    pub open spec fn moved(self, box_i: int, entry_i: int, successful: bool) -> BoxesView {
        self.sent(box_i, entry_i, target_of(box_i, successful))
    }
}

/// A draw that chooses a box chooses one of the five, and the highest whose
/// index does not exceed the draw: the box of its own index, or the last box
/// where the draw is beyond it.
pub proof fn lemma_box_of_draw(draw: u64)
    ensures
        box_of_draw(draw) is None <==> draw >= DRAW_LIMIT,
        box_of_draw(draw) matches Some(box_i) ==> {
            &&& box_i < BOX_COUNT
            &&& box_i <= draw
            &&& box_i < BOX_COUNT - 1 ==> draw == box_i
        },
{
}

/// A larger draw never chooses a lower box.
pub proof fn lemma_box_of_draw_monotonic(low: u64, high: u64)
    requires
        low <= high < DRAW_LIMIT,
    ensures
        box_of_draw(low)->0 <= box_of_draw(high)->0,
{
}

/// A right answer moves an entry of any box but the last to the end of the
/// next box: its box loses it and is one entry shorter, the next box gains it
/// at the end and is one entry longer, and nothing else changes.
pub proof fn lemma_move_forward(before: BoxesView, box_i: int, entry_i: int)
    requires
        before.wf(),
        before.has_slot(box_i, entry_i),
        box_i < BOX_COUNT - 1,
    ensures
        ({
            let after = before.moved(box_i, entry_i, true);
            &&& after.wf()
            &&& after.boxes[box_i] == before.boxes[box_i].remove(entry_i)
            &&& after.boxes[box_i].len() == before.boxes[box_i].len() - 1
            &&& after.boxes[box_i + 1] == before.boxes[box_i + 1].push(
                before.boxes[box_i][entry_i],
            )
            &&& after.boxes[box_i + 1].len() == before.boxes[box_i + 1].len() + 1
            &&& forall|other: int|
                0 <= other < BOX_COUNT && other != box_i && other != box_i + 1
                    ==> after.boxes[other] == before.boxes[other]
            &&& after.finished == before.finished
        }),
{
}

/// A right answer moves an entry of the last box to the end of the finished
/// entries: the last box loses it and is one entry shorter, and no other box
/// changes.
pub proof fn lemma_graduate(before: BoxesView, entry_i: int)
    requires
        before.wf(),
        before.has_slot(BOX_COUNT - 1, entry_i),
    ensures
        ({
            let last = BOX_COUNT - 1;
            let after = before.moved(last, entry_i, true);
            &&& after.wf()
            &&& after.boxes[last] == before.boxes[last].remove(entry_i)
            &&& after.boxes[last].len() == before.boxes[last].len() - 1
            &&& forall|other: int| 0 <= other < last ==> after.boxes[other] == before.boxes[other]
            &&& after.finished == before.finished.push(before.boxes[last][entry_i])
            &&& after.finished.len() == before.finished.len() + 1
        }),
{
}

/// A wrong answer moves an entry of any box but the first to the end of the
/// box before: its box loses it and is one entry shorter, the box before
/// gains it at the end and is one entry longer, and nothing else changes.
pub proof fn lemma_move_backward(before: BoxesView, box_i: int, entry_i: int)
    requires
        before.wf(),
        before.has_slot(box_i, entry_i),
        box_i > 0,
    ensures
        ({
            let after = before.moved(box_i, entry_i, false);
            &&& after.wf()
            &&& after.boxes[box_i] == before.boxes[box_i].remove(entry_i)
            &&& after.boxes[box_i].len() == before.boxes[box_i].len() - 1
            &&& after.boxes[box_i - 1] == before.boxes[box_i - 1].push(
                before.boxes[box_i][entry_i],
            )
            &&& after.boxes[box_i - 1].len() == before.boxes[box_i - 1].len() + 1
            &&& forall|other: int|
                0 <= other < BOX_COUNT && other != box_i && other != box_i - 1
                    ==> after.boxes[other] == before.boxes[other]
            &&& after.finished == before.finished
        }),
{
}

/// A wrong answer leaves an entry of the first box where it is: nothing
/// changes.
pub proof fn lemma_stay_in_first_box(before: BoxesView, entry_i: int)
    requires
        before.wf(),
        before.has_slot(0, entry_i),
    ensures
        before.moved(0, entry_i, false) == before,
{
}

/// Putting an entry at the end of one box adds it once to the entries of all
/// boxes.
pub proof fn lemma_entries_in_push(boxes: Seq<Seq<EntryView>>, box_i: int, entry: EntryView)
    requires
        0 <= box_i < boxes.len(),
    ensures
        entries_in(boxes.update(box_i, boxes[box_i].push(entry))) == entries_in(boxes).insert(
            entry,
        ),
    decreases boxes.len(),
{
    broadcast use vstd::seq_lib::to_multiset_build;

    let after = boxes.update(box_i, boxes[box_i].push(entry));
    if box_i == boxes.len() - 1 {
        assert(after.drop_last() =~= boxes.drop_last());
    } else {
        lemma_entries_in_push(boxes.drop_last(), box_i, entry);
        assert(after.drop_last() =~= boxes.drop_last().update(
            box_i,
            boxes.drop_last()[box_i].push(entry),
        ));
    }
    assert(entries_in(after) =~= entries_in(boxes).insert(entry));
}

/// Taking an entry out of one box takes it once out of the entries of all
/// boxes, which held it.
pub proof fn lemma_entries_in_remove(boxes: Seq<Seq<EntryView>>, box_i: int, entry_i: int)
    requires
        0 <= box_i < boxes.len(),
        0 <= entry_i < boxes[box_i].len(),
    ensures
        entries_in(boxes).count(boxes[box_i][entry_i]) > 0,
        entries_in(boxes.update(box_i, boxes[box_i].remove(entry_i))) == entries_in(boxes).remove(
            boxes[box_i][entry_i],
        ),
    decreases boxes.len(),
{
    broadcast use vstd::seq_lib::to_multiset_remove;

    let entry = boxes[box_i][entry_i];
    let after = boxes.update(box_i, boxes[box_i].remove(entry_i));
    if box_i == boxes.len() - 1 {
        assert(after.drop_last() =~= boxes.drop_last());
        boxes[box_i].to_multiset_ensures();
        assert(boxes[box_i].to_multiset().count(entry) > 0);
    } else {
        lemma_entries_in_remove(boxes.drop_last(), box_i, entry_i);
        assert(after.drop_last() =~= boxes.drop_last().update(
            box_i,
            boxes.drop_last()[box_i].remove(entry_i),
        ));
    }
    assert(entries_in(after) =~= entries_in(boxes).remove(entry));
}

/// No answer loses an entry or makes a second one of it: after the move the
/// collection holds the entries that it held before, each as often.
pub proof fn lemma_move_keeps_entries(
    before: BoxesView,
    box_i: int,
    entry_i: int,
    successful: bool,
)
    requires
        before.wf(),
        before.has_slot(box_i, entry_i),
    ensures
        before.moved(box_i, entry_i, successful).wf(),
        before.moved(box_i, entry_i, successful).all_entries() == before.all_entries(),
{
    broadcast use vstd::seq_lib::to_multiset_build;

    let entry = before.boxes[box_i][entry_i];
    let after = before.moved(box_i, entry_i, successful);
    match target_of(box_i, successful) {
        Target::Box(to) => {
            let joined = before.boxes.update(to, before.boxes[to].push(entry));
            lemma_entries_in_push(before.boxes, to, entry);
            lemma_entries_in_remove(joined, box_i, entry_i);
            assert(after.boxes =~= joined.update(box_i, joined[box_i].remove(entry_i)));
            assert(after.all_entries() =~= before.all_entries());
        },
        Target::Finished => {
            lemma_entries_in_remove(before.boxes, box_i, entry_i);
            assert(after.all_entries() =~= before.all_entries());
        },
        Target::Stay => {},
    }
}

} // verus!
