//! The window order that the tiling follows, and how dropping a window that
//! was dragged with the pointer changes it.

use vstd::prelude::*;
use crate::layout::{Rect, tdiv, in_i32};

verus! {

/// `s` with the items at `i` and `j` exchanged.
pub open spec fn swapped<T>(s: Seq<T>, i: int, j: int) -> Seq<T> {
    s.update(i, s[j]).update(j, s[i])
}

/// A window dropped left of the first quarter of the output goes to the
/// master slot; elsewhere it goes to the stack row under the pointer.
pub fn drop_in_master(final_x: i32, screen: Rect) -> (r: bool)
    requires
        in_i32(screen.x + tdiv(screen.w as int, 4)),
    ensures
        r == (final_x < screen.x + tdiv(screen.w as int, 4)),
{
    final_x < screen.x + screen.w / 4
}

/// Moves the window at `index` of the order to `target`, and the window
/// that was there to `index`.
pub fn swap_windows<T>(order: &mut Vec<T>, index: usize, target: usize)
    requires
        index < old(order).len(),
        target < old(order).len(),
    ensures
        final(order)@ == swapped(old(order)@, index as int, target as int),
{
    let ghost s = order@;
    if index == target {
        assert(swapped(s, index as int, target as int) =~= s);
        return;
    }
    let (lo, hi) = if index < target {
        (index, target)
    } else {
        (target, index)
    };
    let b = order.remove(hi);
    let a = order.remove(lo);
    order.insert(lo, b);
    order.insert(hi, a);
    assert(order@ =~= swapped(s, index as int, target as int));
}

/// Exchanging two windows twice gives back the order.
pub proof fn lemma_swap_twice<T>(s: Seq<T>, i: int, j: int)
    requires
        0 <= i < s.len(),
        0 <= j < s.len(),
    ensures
        swapped(swapped(s, i, j), i, j) == s,
{
    assert(swapped(swapped(s, i, j), i, j) =~= s);
}

/// Exchanging two windows keeps every window, as often as before.
pub proof fn lemma_swap_permutes<T>(s: Seq<T>, i: int, j: int)
    requires
        0 <= i < s.len(),
        0 <= j < s.len(),
    ensures
        swapped(s, i, j).to_multiset() == s.to_multiset(),
        swapped(s, i, j).len() == s.len(),
{
    broadcast use vstd::seq_lib::to_multiset_update, vstd::seq_lib::to_multiset_contains;
    let m = s.to_multiset();
    let u = s.update(i, s[j]);
    assert(u.to_multiset() == m.insert(s[j]).remove(s[i]));
    assert(u[j] == s[j]);
    assert(swapped(s, i, j).to_multiset() == m.insert(s[j]).remove(s[i]).insert(s[i]).remove(s[j]));
    assert(s.contains(s[i]));
    assert(m.count(s[i]) > 0);
    assert(swapped(s, i, j).to_multiset() =~= s.to_multiset());
}


/// Exchanging the windows at `i` and `j` puts the one from `i` at `j`, the
/// one from `j` at `i`, and leaves every other position as it was.
pub proof fn lemma_swapped_positions<T>(s: Seq<T>, i: int, j: int)
    requires
        0 <= i < s.len(),
        0 <= j < s.len(),
    ensures
        swapped(s, i, j).len() == s.len(),
        swapped(s, i, j)[j] == s[i],
        swapped(s, i, j)[i] == s[j],
        forall|k: int| 0 <= k < s.len() && k != i && k != j ==> #[trigger] swapped(s, i, j)[k] == s[k],
{
}

} // verus!
