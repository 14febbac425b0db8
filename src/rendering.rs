//! What the renderer draws each frame.
use vstd::prelude::*;

verus! {

/// Whether an entity is drawn.
#[derive(Clone, Copy, Debug, PartialEq, Eq, Structural)]
pub struct Visible(pub bool);

/// The indices of the visible entities, in order.
pub open spec fn visible_indices(v: Seq<Visible>) -> Seq<usize>
    decreases v.len(),
{
    if v.len() == 0 {
        Seq::empty()
    } else if v.last().0 {
        visible_indices(v.drop_last()).push((v.len() - 1) as usize)
    } else {
        visible_indices(v.drop_last())
    }
}

/// The entities to draw this frame: the indices of those marked visible.
pub fn render_models(v: &[Visible]) -> (r: Vec<usize>)
    ensures
        r@ == visible_indices(v@),
{
    let mut r: Vec<usize> = Vec::new();
    let mut i: usize = 0;
    while i < v.len()
        invariant
            i <= v@.len(),
            r@ == visible_indices(v@.subrange(0, i as int)),
        decreases v.len() - i,
    {
        proof {
            let pre = v@.subrange(0, i + 1);
            assert(pre.drop_last() =~= v@.subrange(0, i as int));
        }
        if v[i].0 {
            r.push(i);
        }
        i = i + 1;
    }
    assert(v@.subrange(0, i as int) =~= v@);
    r
}

} // verus!
