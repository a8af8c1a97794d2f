use vstd::prelude::*;
use crate::canvas_layer::CanvasLayer;
use crate::data_types::{Color, PixelPos};

verus! {

/// What a list of edits does to a layer: for every position in the list, the
/// colour of the last edit at that position.
pub open spec fn patch_of(edits: Seq<(PixelPos, Color)>) -> Map<PixelPos, Color>
    decreases edits.len(),
{
    if edits.len() == 0 {
        Map::empty()
    } else {
        patch_of(edits.drop_last()).insert(edits.last().0, edits.last().1)
    }
}

/// One more edit at the end of a list overrides the patch at its position.
pub proof fn lemma_patch_of_push(edits: Seq<(PixelPos, Color)>, edit: (PixelPos, Color))
    ensures
        patch_of(edits.push(edit)) == patch_of(edits).insert(edit.0, edit.1),
{
    assert(edits.push(edit).drop_last() =~= edits);
}

/// A patch touches exactly the positions that its edits name.
pub proof fn lemma_patch_of_keys(edits: Seq<(PixelPos, Color)>, p: PixelPos)
    ensures
        patch_of(edits).contains_key(p) <==> exists|i: int|
            0 <= i < edits.len() && (#[trigger] edits[i]).0 == p,
    decreases edits.len(),
{
    if edits.len() > 0 {
        let front = edits.drop_last();
        lemma_patch_of_keys(front, p);
        if patch_of(edits).contains_key(p) {
            if edits.last().0 == p {
                assert(edits[edits.len() - 1].0 == p);
            } else {
                let i = choose|i: int| 0 <= i < front.len() && (#[trigger] front[i]).0 == p;
                assert(edits[i].0 == p);
            }
        }
        if exists|i: int| 0 <= i < edits.len() && (#[trigger] edits[i]).0 == p {
            let i = choose|i: int| 0 <= i < edits.len() && (#[trigger] edits[i]).0 == p;
            if i < edits.len() - 1 {
                assert(front[i].0 == p);
            }
        }
    }
}

/// Where no position is named twice, the patch holds each edit's own colour.
pub proof fn lemma_patch_of_unique(edits: Seq<(PixelPos, Color)>, i: int)
    requires
        0 <= i < edits.len(),
        forall|k: int, l: int|
            0 <= k < l < edits.len() ==> (#[trigger] edits[k]).0 != (#[trigger] edits[l]).0,
    ensures
        patch_of(edits).contains_key(edits[i].0),
        patch_of(edits)[edits[i].0] == edits[i].1,
    decreases edits.len(),
{
    if i < edits.len() - 1 {
        let front = edits.drop_last();
        assert forall|k: int, l: int| 0 <= k < l < front.len() implies (#[trigger] front[k]).0
            != (#[trigger] front[l]).0 by {
            assert(front[k] == edits[k] && front[l] == edits[l]);
        }
        lemma_patch_of_unique(front, i);
        assert(front[i] == edits[i]);
    }
}

/// A reversible batch of pixel edits: positions paired with the colours to
/// set there. Where a position occurs more than once, the last edit governs.
pub struct EditCommand {
    pub edits: Vec<(PixelPos, Color)>,
}

impl Default for EditCommand {
    fn default() -> (command: EditCommand)
        ensures
            command@ == Seq::<(PixelPos, Color)>::empty(),
    {
        EditCommand { edits: Vec::new() }
    }
}

impl Clone for EditCommand {
    fn clone(&self) -> (copy: EditCommand)
        ensures
            copy@ == self@,
    {
        let mut edits: Vec<(PixelPos, Color)> = Vec::new();
        let mut i: usize = 0;
        while i < self.edits.len()
            invariant
                i <= self.edits.len(),
                edits@ == self.edits@.take(i as int),
            decreases self.edits.len() - i,
        {
            edits.push(self.edits[i]);
            assert(self.edits@.take(i + 1) =~= self.edits@.take(i as int).push(self.edits@[i as int]));
            i = i + 1;
        }
        assert(self.edits@.take(self.edits@.len() as int) =~= self.edits@);
        EditCommand { edits }
    }
}

impl EditCommand {
    /// The edits in order.
    pub open spec fn view(&self) -> Seq<(PixelPos, Color)> {
        self.edits@
    }

    /// The command's effect: each named position with its final colour.
    pub open spec fn patch(&self) -> Map<PixelPos, Color> {
        patch_of(self.edits@)
    }

    /// Whether every edit lies inside a frame of the given size.
    pub open spec fn fits(&self, size: (u32, u32)) -> bool {
        forall|i: int| 0 <= i < self.edits@.len() ==> (#[trigger] self.edits@[i]).0.within(size)
    }

    /// Whether no position is named twice.
    pub open spec fn unique_positions(&self) -> bool {
        forall|i: int, j: int|
            0 <= i < j < self.edits@.len() ==> (#[trigger] self.edits@[i]).0
                != (#[trigger] self.edits@[j]).0
    }

    /// Writes the edits to the layer, in order.
    pub fn apply<T: CanvasLayer + ?Sized>(&self, canvas: &mut T)
        requires
            self.fits(old(canvas)@.size),
        ensures
            final(canvas)@ == old(canvas)@.patched(self.patch()),
    {
        let ghost before = canvas@;
        proof {
            assert(before.patched(patch_of(self.edits@.take(0))).pixels =~= before.pixels);
        }
        let mut i: usize = 0;
        while i < self.edits.len()
            invariant
                i <= self.edits.len(),
                self.fits(before.size),
                canvas@ == before.patched(patch_of(self.edits@.take(i as int))),
            decreases self.edits.len() - i,
        {
            let (pos, color) = self.edits[i];
            proof {
                let done = self.edits@.take(i as int);
                assert(self.edits@[i as int].0 == pos);
                assert(self.edits@.take(i + 1) =~= done.push((pos, color)));
                lemma_patch_of_push(done, (pos, color));
                assert(before.patched(patch_of(done)).write(pos, color).pixels =~= before.patched(
                    patch_of(done.push((pos, color))),
                ).pixels);
            }
            canvas.set_pixel(pos, color);
            i = i + 1;
        }
        proof {
            assert(self.edits@.take(self.edits@.len() as int) =~= self.edits@);
        }
    }

    /// The command that takes this one back: the same positions, each with
    /// the colour the layer holds there now.
    pub fn reverse<T: CanvasLayer + ?Sized>(&self, canvas: &T) -> (result: EditCommand)
        requires
            self.fits(canvas@.size),
        ensures
            result@.len() == self@.len(),
            forall|i: int|
                0 <= i < self@.len() ==> #[trigger] result@[i] == (
                    self@[i].0,
                    canvas@.read(self@[i].0),
                ),
            result.patch() == canvas@.captured(self.patch()),
            result.fits(canvas@.size),
    {
        let mut result = EditCommand::default();
        proof {
            assert(patch_of(result.edits@) =~= canvas@.captured(patch_of(self.edits@.take(0))));
        }
        let mut i: usize = 0;
        while i < self.edits.len()
            invariant
                i <= self.edits.len(),
                self.fits(canvas@.size),
                result.edits@.len() == i,
                forall|k: int|
                    0 <= k < i ==> #[trigger] result.edits@[k] == (
                        self.edits@[k].0,
                        canvas@.read(self.edits@[k].0),
                    ),
                patch_of(result.edits@) == canvas@.captured(patch_of(self.edits@.take(i as int))),
            decreases self.edits.len() - i,
        {
            let (pos, color) = self.edits[i];
            proof {
                assert(self.edits@[i as int].0 == pos);
            }
            let held = canvas.get_pixel(pos);
            proof {
                let done = self.edits@.take(i as int);
                assert(self.edits@.take(i + 1) =~= done.push((pos, color)));
                lemma_patch_of_push(done, (pos, color));
                lemma_patch_of_push(result.edits@, (pos, held));
                assert(canvas@.captured(patch_of(done)).insert(pos, held) =~= canvas@.captured(
                    patch_of(done).insert(pos, color),
                ));
            }
            result.edits.push((pos, held));
            i = i + 1;
        }
        proof {
            assert(self.edits@.take(self.edits@.len() as int) =~= self.edits@);
        }
        result
    }
}

/// A command stays inside a frame exactly if its patch does, and it has no
/// edits exactly if its patch is empty.
pub proof fn lemma_command_patch(command: EditCommand, size: (u32, u32))
    ensures
        command.fits(size) <==> forall|p: PixelPos| #[trigger]
            command.patch().contains_key(p) ==> p.within(size),
        command@.len() == 0 <==> command.patch() == Map::<PixelPos, Color>::empty(),
{
    let edits = command.edits@;
    if command.fits(size) {
        assert forall|p: PixelPos| #[trigger] command.patch().contains_key(p) implies p.within(
            size,
        ) by {
            lemma_patch_of_keys(edits, p);
        }
    }
    if forall|p: PixelPos| #[trigger] command.patch().contains_key(p) ==> p.within(size) {
        assert forall|i: int| 0 <= i < edits.len() implies (#[trigger] edits[i]).0.within(size) by {
            lemma_patch_of_keys(edits, edits[i].0);
            assert(command.patch().contains_key(edits[i].0));
        }
    }
    if edits.len() > 0 {
        lemma_patch_of_keys(edits, edits[0].0);
        assert(command.patch().contains_key(edits[0].0));
    }
}

} // verus!
