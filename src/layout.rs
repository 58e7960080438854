//! UI layout vocabulary: anchors, scale modes and the order in which a
//! parent forest is resolved.

use vstd::prelude::*;
use glyph_brush::{HorizontalAlign, VerticalAlign};

verus! {

/// glyph_brush's vertical text alignment: Top, Center or Bottom.
#[verifier::external_type_specification]
pub struct ExVerticalAlign(VerticalAlign);

/// glyph_brush's horizontal text alignment: Left, Center or Right.
#[verifier::external_type_specification]
pub struct ExHorizontalAlign(HorizontalAlign);

/// Indicates if the position and margins should be calculated in pixel or
/// relative to their parent size.
#[derive(Debug, Clone, Copy, PartialEq, Eq, Structural)]
pub enum ScaleMode {
    /// Use directly the pixel value.
    Pixel,
    /// Use a proportion (%) of the parent's dimensions (or screen, if there is no parent).
    Percent,
}

/// Indicates where the anchor is, relative to the parent (or to the screen, if
/// there is no parent). Follows a normal english Y,X naming.
#[derive(Debug, Clone, Copy, PartialEq, Eq, Structural)]
pub enum Anchor {
    /// Anchors the entity at the top left of the parent.
    TopLeft,
    /// Anchors the entity at the top middle of the parent.
    TopMiddle,
    /// Anchors the entity at the top right of the parent.
    TopRight,
    /// Anchors the entity at the middle left of the parent.
    MiddleLeft,
    /// Anchors the entity at the center of the parent.
    Middle,
    /// Anchors the entity at the middle right of the parent.
    MiddleRight,
    /// Anchors the entity at the bottom left of the parent.
    BottomLeft,
    /// Anchors the entity at the bottom middle of the parent.
    BottomMiddle,
    /// Anchors the entity at the bottom right of the parent.
    BottomRight,
}

/// Horizontal component of an anchor, in half units: -1 is the left edge,
/// 0 the center and 1 the right edge.
pub open spec fn anchor_x(a: Anchor) -> int {
    match a {
        Anchor::TopLeft | Anchor::MiddleLeft | Anchor::BottomLeft => -1,
        Anchor::TopMiddle | Anchor::Middle | Anchor::BottomMiddle => 0,
        Anchor::TopRight | Anchor::MiddleRight | Anchor::BottomRight => 1,
    }
}

/// Vertical component of an anchor, in half units: 1 is the top edge (Y grows
/// upward), 0 the center and -1 the bottom edge.
pub open spec fn anchor_y(a: Anchor) -> int {
    match a {
        Anchor::TopLeft | Anchor::TopMiddle | Anchor::TopRight => 1,
        Anchor::MiddleLeft | Anchor::Middle | Anchor::MiddleRight => 0,
        Anchor::BottomLeft | Anchor::BottomMiddle | Anchor::BottomRight => -1,
    }
}

impl Anchor {
    /// Returns the normalized offset of the anchor inside a box centered on
    /// the origin, in half units of the box size: `(-1, 1)` stands for
    /// `(-0.5, 0.5)`, the top left corner.
    pub fn norm_offset(self) -> (r: (i8, i8))
        ensures
            r.0 as int == anchor_x(self),
            r.1 as int == anchor_y(self),
    {
        match self {
            Anchor::TopLeft => (-1, 1),
            Anchor::TopMiddle => (0, 1),
            Anchor::TopRight => (1, 1),
            Anchor::MiddleLeft => (-1, 0),
            Anchor::Middle => (0, 0),
            Anchor::MiddleRight => (1, 0),
            Anchor::BottomLeft => (-1, -1),
            Anchor::BottomMiddle => (0, -1),
            Anchor::BottomRight => (1, -1),
        }
    }

    /// Vertical alignment of text anchored this way.
    pub fn vertical_align(self) -> (r: VerticalAlign)
        ensures
            anchor_y(self) == 1 ==> r == VerticalAlign::Top,
            anchor_y(self) == 0 ==> r == VerticalAlign::Center,
            anchor_y(self) == -1 ==> r == VerticalAlign::Bottom,
    {
        match self {
            Anchor::TopLeft => VerticalAlign::Top,
            Anchor::TopMiddle => VerticalAlign::Top,
            Anchor::TopRight => VerticalAlign::Top,
            Anchor::MiddleLeft => VerticalAlign::Center,
            Anchor::Middle => VerticalAlign::Center,
            Anchor::MiddleRight => VerticalAlign::Center,
            Anchor::BottomLeft => VerticalAlign::Bottom,
            Anchor::BottomMiddle => VerticalAlign::Bottom,
            Anchor::BottomRight => VerticalAlign::Bottom,
        }
    }

    /// Horizontal alignment of text anchored this way.
    pub fn horizontal_align(self) -> (r: HorizontalAlign)
        ensures
            anchor_x(self) == -1 ==> r == HorizontalAlign::Left,
            anchor_x(self) == 0 ==> r == HorizontalAlign::Center,
            anchor_x(self) == 1 ==> r == HorizontalAlign::Right,
    {
        match self {
            Anchor::TopLeft => HorizontalAlign::Left,
            Anchor::TopMiddle => HorizontalAlign::Center,
            Anchor::TopRight => HorizontalAlign::Right,
            Anchor::MiddleLeft => HorizontalAlign::Left,
            Anchor::Middle => HorizontalAlign::Center,
            Anchor::MiddleRight => HorizontalAlign::Right,
            Anchor::BottomLeft => HorizontalAlign::Left,
            Anchor::BottomMiddle => HorizontalAlign::Center,
            Anchor::BottomRight => HorizontalAlign::Right,
        }
    }
}


/// Entity `i` of a layout is resolved from the screen or, through at most
/// `fuel` links, from an ancestor that is a root. `parents[i]` is `None` for a
/// root and `Some(p)` for a child of entity `p`; a `p` outside the table is a
/// parent that has no layout entry.
pub open spec fn resolvable(parents: Seq<Option<usize>>, i: int, fuel: nat) -> bool
    decreases fuel,
{
    &&& 0 <= i < parents.len()
    &&& match parents[i] {
        None => true,
        Some(p) => fuel > 0 && resolvable(parents, p as int, (fuel - 1) as nat),
    }
}

/// Entity `i` is resolved by a layout pass: its chain of parents reaches a
/// root through entities of the table. A child whose parent is missing, its
/// descendants, and the members of a cycle are skipped.
pub open spec fn resolved(parents: Seq<Option<usize>>, i: int) -> bool {
    resolvable(parents, i, parents.len())
}

/// No entity occurs twice.
pub open spec fn no_duplicates(order: Seq<usize>) -> bool {
    forall|a: int, b: int| 0 <= a < b < order.len() ==> order[a] != order[b]
}

/// Each child comes after its parent.
pub open spec fn parents_first(parents: Seq<Option<usize>>, order: Seq<usize>) -> bool {
    forall|a: int|
        0 <= a < order.len() && (#[trigger] parents[order[a] as int]) is Some
            ==> order.subrange(0, a).contains(parents[order[a] as int]->Some_0)
}

proof fn lemma_resolvable_monotone(parents: Seq<Option<usize>>, i: int, fuel: nat)
    requires
        resolvable(parents, i, fuel),
    ensures
        resolvable(parents, i, fuel + 1),
    decreases fuel,
{
    if let Some(p) = parents[i] {
        lemma_resolvable_monotone(parents, p as int, (fuel - 1) as nat);
    }
}

/// The order in which a layout pass resolves entities: every resolved
/// entity once, each child after its parent, so that a parent's box is
/// known when its children are placed. Roots come first, then the entities
/// by their depth in the forest.
pub fn layout_order(parents: &Vec<Option<usize>>) -> (order: Vec<usize>)
    ensures
        no_duplicates(order@),
        parents_first(parents@, order@),
        forall|a: int| 0 <= a < order@.len() ==> #[trigger] order@[a] < parents@.len(),
        forall|x: int| 0 <= x < parents@.len() ==> (order@.contains(x as usize) <==> resolved(parents@, x)),
{
    let n = parents.len();
    let mut order: Vec<usize> = Vec::new();
    let mut placed: Vec<bool> = Vec::new();
    let mut j: usize = 0;
    while j < n
        invariant
            j <= n == parents@.len(),
            placed@.len() == j,
            forall|x: int| 0 <= x < j ==> !placed@[x],
        decreases n - j,
    {
        placed.push(false);
        j = j + 1;
    }
    let mut rounds: u128 = 0;
    while rounds <= n as u128
        invariant
            n == parents@.len(),
            rounds <= n + 1,
            placed@.len() == n,
            forall|x: int|
                0 <= x < n ==> (#[trigger] placed@[x] <==> rounds > 0 && resolvable(
                    parents@,
                    x,
                    (rounds - 1) as nat,
                )),
            no_duplicates(order@),
            parents_first(parents@, order@),
            forall|a: int| 0 <= a < order@.len() ==> #[trigger] order@[a] < n,
            forall|x: int| 0 <= x < n ==> (order@.contains(x as usize) <==> placed@[x]),
        decreases n + 1 - rounds,
    {
        let mut next: Vec<bool> = Vec::new();
        let mut i: usize = 0;
        while i < n
            invariant
                n == parents@.len(),
                rounds <= n,
                placed@.len() == n,
                next@.len() == i <= n,
                forall|x: int|
                    0 <= x < i ==> (#[trigger] next@[x] <==> resolvable(parents@, x, rounds as nat)),
                forall|x: int| 0 <= x < i ==> (#[trigger] placed@[x] ==> next@[x]),
                forall|x: int|
                    0 <= x < n ==> (#[trigger] placed@[x] <==> rounds > 0 && resolvable(
                        parents@,
                        x,
                        (rounds - 1) as nat,
                    )),
                no_duplicates(order@),
                parents_first(parents@, order@),
                forall|a: int| 0 <= a < order@.len() ==> #[trigger] order@[a] < n,
                forall|x: int|
                    0 <= x < n ==> (order@.contains(x as usize) <==> (placed@[x] || (x < i
                        && next@[x]))),
            decreases n - i,
        {
            let ready = match parents[i] {
                None => true,
                Some(p) => p < n && placed[p],
            };
            let now = placed[i] || ready;
            let ghost order0 = order@;
            let ghost next0 = next@;
            proof {
                if placed@[i as int] {
                    lemma_resolvable_monotone(parents@, i as int, (rounds - 1) as nat);
                }
                if let Some(p) = parents@[i as int] {
                    if p < n && placed@[p as int] {
                        lemma_resolvable_monotone(parents@, p as int, (rounds - 1) as nat);
                        assert(resolvable(parents@, p as int, rounds as nat)) by {
                            assert(resolvable(parents@, p as int, (rounds - 1) as nat));
                        }
                    }
                }
                assert(now <==> resolvable(parents@, i as int, rounds as nat)) by {
                    if resolvable(parents@, i as int, rounds as nat) && !placed@[i as int] {
                        if let Some(p) = parents@[i as int] {
                            assert(rounds > 0);
                            assert(resolvable(parents@, p as int, (rounds - 1) as nat));
                        }
                    }
                };
            }
            if ready && !placed[i] {
                let ghost before = order@;
                proof {
                    assert(!before.contains(i));
                }
                order.push(i);
                proof {
                    assert forall|a: int, b: int| 0 <= a < b < order@.len() implies order@[a]
                        != order@[b] by {
                        if b == order@.len() - 1 {
                            assert(before.contains(order@[a]));
                        }
                    }
                    assert forall|a: int|
                        0 <= a < order@.len() && (#[trigger] parents@[order@[a] as int]) is Some
                            implies order@.subrange(0, a).contains(
                        parents@[order@[a] as int]->Some_0,
                    ) by {
                        if a < before.len() {
                            assert(order@.subrange(0, a) =~= before.subrange(0, a));
                        } else {
                            let p = parents@[i as int]->Some_0;
                            assert(order@.subrange(0, a) =~= before);
                            assert(placed@[p as int]);
                            assert(before.contains(p));
                        }
                    }
                }
            }
            next.push(now);
            i = i + 1;
            proof {
                assert forall|x: int| 0 <= x < n implies (order@.contains(x as usize) <==> (
                placed@[x] || (x < i && next@[x]))) by {
                    assert(order0.contains(x as usize) <==> (placed@[x] || (x < i - 1 && next0[x])));
                    if x < i - 1 {
                        assert(next@[x] == next0[x]);
                    }
                    if x == i - 1 {
                        assert(next@[x] == now);
                    }
                    if order@ == order0 {
                        if x == i - 1 {
                            assert(now == placed@[x]);
                        }
                    } else {
                        assert(order@ == order0.push((i - 1) as usize));
                        if x == i - 1 {
                            assert(order@[order@.len() - 1] == x as usize);
                        } else {
                            if order@.contains(x as usize) {
                                let a = choose|a: int| 0 <= a < order@.len() && order@[a] == x as usize;
                                assert(a != order@.len() - 1);
                                assert(order0[a] == x as usize);
                            }
                            if order0.contains(x as usize) {
                                let a = choose|a: int| 0 <= a < order0.len() && order0[a] == x as usize;
                                assert(order@[a] == x as usize);
                            }
                        }
                    }
                }
            }
        }
        proof {
            assert forall|x: int| 0 <= x < n implies (order@.contains(x as usize) <==> next@[x]) by {
                if placed@[x] {
                    lemma_resolvable_monotone(parents@, x, (rounds - 1) as nat);
                }
            }
        }
        placed = next;
        rounds = rounds + 1;
    }
    proof {
        assert forall|x: int| 0 <= x < parents@.len() implies (order@.contains(x as usize) <==> resolved(
            parents@,
            x,
        )) by {
            assert(placed@[x] <==> resolvable(parents@, x, n as nat));
        }
    }
    order
}

} // verus!
