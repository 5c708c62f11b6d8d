//! Zone layout: where the cards attached to a zone go, and the depth order
//! that the card list is kept in for drawing and picking.

use vstd::prelude::*;
use vstd::multiset::{group_multiset_axioms, lemma_multiset_empty_len, Multiset};
use vstd::seq_lib::{to_multiset_build, to_multiset_contains, to_multiset_insert, to_multiset_len};

use crate::view::{CardView, DropTarget, Point, TargetType};

verus! {

/// Gap between neighbouring cards of a row: 0.02.
pub const ROW_GAP: i64 = 2_000;

/// Height step between neighbouring cards of a stack: 0.02.
pub const STACK_STEP: i64 = 2_000;

/// Most cards a board holds.
pub const MAX_CARDS: usize = 65_536;

/// How many of the first `i` cards are attached to `zone`.
pub open spec fn rank(cards: Seq<CardView>, zone: usize, i: int) -> int
    decreases i,
{
    if i <= 0 {
        0
    } else {
        rank(cards, zone, i - 1) + if cards[i - 1].attached_to_target == Some(zone) {
            1int
        } else {
            0int
        }
    }
}

pub proof fn lemma_rank_bounds(cards: Seq<CardView>, zone: usize, i: int)
    requires
        0 <= i,
    ensures
        0 <= rank(cards, zone, i) <= i,
    decreases i,
{
    if i > 0 {
        lemma_rank_bounds(cards, zone, i - 1);
    }
}

/// Distance between the centres of neighbouring cards of a row, for cards
/// of half width `half_width`.
pub open spec fn row_spacing(half_width: int) -> int {
    2 * half_width + ROW_GAP
}

/// The place of the card of rank `r` among `n` in a row centred on
/// `anchor`: the ranks run right to left, so the last attached is leftmost.
pub open spec fn row_slot(anchor: Point, n: int, r: int, spacing: int) -> Point {
    Point {
        x: (anchor.x - (n - 1) * spacing / 2 + (n - 1 - r) * spacing) as i64,
        y: anchor.y,
        z: anchor.z,
    }
}

/// The place of the card of rank `r` in a stack on `anchor`.
pub open spec fn stack_slot(anchor: Point, r: int) -> Point {
    Point { x: anchor.x, y: (anchor.y + r * STACK_STEP) as i64, z: anchor.z }
}

/// The cards `cards` with those attached to `t` placed by `t`'s policy:
/// rows and stacks are laid out, the other kinds of zone left as they are.
pub open spec fn laid_out(cards: Seq<CardView>, t: DropTarget, spacing: int) -> Seq<CardView> {
    let n = rank(cards, t.id, cards.len() as int);
    Seq::new(
        cards.len(),
        |i: int|
            if cards[i].attached_to_target == Some(t.id) {
                match t.target_type {
                    TargetType::Hand => CardView {
                        position: row_slot(t.anchor, n, rank(cards, t.id, i), spacing),
                        ..cards[i]
                    },
                    TargetType::Stack => CardView { position: stack_slot(t.anchor, rank(cards, t.id, i)), ..cards[i] },
                    _ => cards[i],
                }
            } else {
                cards[i]
            },
    )
}

/// The first target of `ts` with id `id`.
pub open spec fn first_target(ts: Seq<DropTarget>, id: usize) -> Option<DropTarget>
    decreases ts.len(),
{
    if ts.len() == 0 {
        None
    } else if ts[0].id == id {
        Some(ts[0])
    } else {
        first_target(ts.drop_first(), id)
    }
}

/// `cards` after a recompute of zone `zone` (before re-sorting): laid out by
/// the first target with that id, with the spacing the first card's half
/// width gives; unchanged where no target has that id.
pub open spec fn relaid(cards: Seq<CardView>, targets: Seq<DropTarget>, zone: usize) -> Seq<CardView> {
    match first_target(targets, zone) {
        Some(t) => if cards.len() == 0 {
            cards
        } else {
            laid_out(cards, t, row_spacing(cards[0].size.x as int))
        },
        None => cards,
    }
}

/// Heights never increase along the sequence.
pub open spec fn depth_sorted(cards: Seq<CardView>) -> bool {
    forall|i: int, j: int| 0 <= i < j < cards.len() ==> #[trigger] cards[i].position.y >= #[trigger] cards[j].position.y
}

pub open spec fn all_in_range(cards: Seq<CardView>) -> bool {
    forall|i: int| 0 <= i < cards.len() ==> #[trigger] cards[i].in_range()
}

/// The first target with id `id`, if any.
pub fn find_target(targets: &Vec<DropTarget>, id: usize) -> (r: Option<DropTarget>)
    ensures
        r == first_target(targets@, id),
{
    let ghost ts = targets@;
    let mut i: usize = 0;
    assert(ts.subrange(0, ts.len() as int) =~= ts);
    while i < targets.len()
        invariant
            ts == targets@,
            i <= ts.len(),
            first_target(ts, id) == first_target(ts.subrange(i as int, ts.len() as int), id),
        decreases ts.len() - i,
    {
        let ghost rest = ts.subrange(i as int, ts.len() as int);
        assert(rest.drop_first() =~= ts.subrange(i + 1, ts.len() as int));
        assert(rest[0] == ts[i as int]);
        if targets[i].id == id {
            return Some(targets[i]);
        }
        i = i + 1;
    }
    None
}

/// Places the cards attached to target `t` by its policy.
pub fn lay_out(cards: &mut Vec<CardView>, t: DropTarget)
    requires
        old(cards)@.len() <= MAX_CARDS,
        old(cards)@.len() > 0,
        t.in_range(),
        all_in_range(old(cards)@),
    ensures
        final(cards)@ == laid_out(old(cards)@, t, row_spacing(old(cards)@[0].size.x as int)),
        all_in_range(final(cards)@),
{
    let ghost c0 = cards@;
    assert(c0[0].in_range());
    let spacing = cards[0].size.x * 2 + ROW_GAP;
    let mut n: usize = 0;
    let mut i: usize = 0;
    while i < cards.len()
        invariant
            cards@ == c0,
            i <= c0.len(),
            n == rank(c0, t.id, i as int),
            n <= i,
        decreases c0.len() - i,
    {
        if cards[i].attached_to_target == Some(t.id) {
            n = n + 1;
        }
        i = i + 1;
    }
    if n == 0 {
        assert forall|k: int| 0 <= k < c0.len() implies (#[trigger] c0[k]).attached_to_target != Some(t.id) by {
            if c0[k].attached_to_target == Some(t.id) {
                lemma_rank_bounds(c0, t.id, k);
                lemma_rank_mono(c0, t.id, k + 1, c0.len() as int);
            }
        }
        assert(cards@ =~= laid_out(c0, t, spacing as int));
        return;
    }
    proof {
        assert(0 <= (n - 1) * spacing <= 65_536 * 2_099_152) by (nonlinear_arith)
            requires 1 <= n <= 65_536, 2_000 <= spacing <= 2_099_152;
    }
    let offset = ((n - 1) as i64 * spacing) / 2;
    let mut r: usize = 0;
    let mut i: usize = 0;
    while i < cards.len()
        invariant
            c0.len() == cards@.len(),
            c0.len() <= MAX_CARDS,
            i <= c0.len(),
            t.in_range(),
            n == rank(c0, t.id, c0.len() as int),
            1 <= n <= MAX_CARDS,
            spacing == row_spacing(c0[0].size.x as int),
            2_000 <= spacing <= 2_099_152,
            offset == (n - 1) * spacing / 2,
            0 <= offset <= 65_536 * 2_099_152,
            r == rank(c0, t.id, i as int),
            r <= n,
            all_in_range(c0),
            forall|k: int| 0 <= k < i ==> #[trigger] cards@[k] == laid_out(c0, t, spacing as int)[k],
            forall|k: int| i <= k < c0.len() ==> #[trigger] cards@[k] == c0[k],
            forall|k: int| 0 <= k < c0.len() ==> (#[trigger] cards@[k]).in_range(),
        decreases c0.len() - i,
    {
        proof {
            lemma_rank_bounds(c0, t.id, i + 1);
            if i + 1 < c0.len() {
                lemma_rank_mono(c0, t.id, i + 1, c0.len() as int);
            }
            lemma_rank_mono(c0, t.id, i + 1, c0.len() as int);
        }
        if cards[i].attached_to_target == Some(t.id) {
            match t.target_type {
                TargetType::Hand => {
                    proof {
                        assert(0 <= (n - 1 - r) * spacing <= 65_536 * 2_099_152) by (nonlinear_arith)
                            requires r < n <= 65_536, 2_000 <= spacing <= 2_099_152;
                    }
                    let x = t.anchor.x - offset + ((n - 1 - r) as i64) * spacing;
                    cards[i].position = Point { x, y: t.anchor.y, z: t.anchor.z };
                },
                TargetType::Stack => {
                    proof {
                        assert(0 <= r * STACK_STEP <= 65_536 * 2_000) by (nonlinear_arith)
                            requires r < 65_536;
                    }
                    let y = t.anchor.y + (r as i64) * STACK_STEP;
                    cards[i].position = Point { x: t.anchor.x, y, z: t.anchor.z };
                },
                _ => {},
            }
            r = r + 1;
        }
        i = i + 1;
    }
    assert(cards@ =~= laid_out(c0, t, spacing as int));
}

pub proof fn lemma_rank_mono(cards: Seq<CardView>, zone: usize, i: int, j: int)
    requires
        0 <= i <= j,
    ensures
        rank(cards, zone, i) <= rank(cards, zone, j),
        rank(cards, zone, i) + (j - i) >= rank(cards, zone, j),
    decreases j - i,
{
    if i < j {
        lemma_rank_mono(cards, zone, i, j - 1);
    }
}

/// Orders `cards` by height, highest first, keeping the same cards.
pub fn sort_by_depth(cards: Vec<CardView>) -> (r: Vec<CardView>)
    ensures
        r@.to_multiset() == cards@.to_multiset(),
        depth_sorted(r@),
{
    broadcast use group_multiset_axioms;

    let ghost c0 = cards@;
    let mut rest = cards;
    let mut sorted: Vec<CardView> = Vec::new();
    proof {
        to_multiset_len(sorted@);
        lemma_multiset_empty_len(sorted@.to_multiset());
        assert(sorted@.to_multiset().add(rest@.to_multiset()) =~= c0.to_multiset());
    }
    while rest.len() > 0
        invariant
            sorted@.to_multiset().add(rest@.to_multiset()) == c0.to_multiset(),
            depth_sorted(sorted@),
        decreases rest@.len(),
    {
        let ghost r0 = rest@;
        let c = rest.pop().unwrap();
        assert(r0 =~= rest@.push(c));
        let mut p: usize = 0;
        while p < sorted.len() && sorted[p].position.y > c.position.y
            invariant
                p <= sorted@.len(),
                forall|k: int| 0 <= k < p ==> #[trigger] sorted@[k].position.y > c.position.y,
            decreases sorted@.len() - p,
        {
            p = p + 1;
        }
        let ghost s0 = sorted@;
        sorted.insert(p, c);
        proof {
            assert forall|i: int, j: int| 0 <= i < j < sorted@.len() implies #[trigger] sorted@[i].position.y
                >= #[trigger] sorted@[j].position.y by {
                if j < p {
                } else if j == p {
                } else if i < p {
                    assert(sorted@[j] == s0[j - 1]);
                    assert(s0[i].position.y >= s0[p as int].position.y || p == j - 1);
                } else if i == p {
                    assert(sorted@[j] == s0[j - 1]);
                    assert(s0[p as int].position.y <= c.position.y);
                    assert(s0[p as int].position.y >= s0[j - 1].position.y || p == j - 1);
                } else {
                    assert(sorted@[i] == s0[i - 1] && sorted@[j] == s0[j - 1]);
                }
            }
            to_multiset_insert(s0, p as int, c);
            to_multiset_build(rest@, c);
            assert(sorted@.to_multiset() == s0.to_multiset().insert(c));
            assert(sorted@.to_multiset().add(rest@.to_multiset()) =~= s0.to_multiset().add(r0.to_multiset()));
        }
    }
    proof {
        to_multiset_len(rest@);
        lemma_multiset_empty_len(rest@.to_multiset());
    }
    assert(rest@.to_multiset() =~= Multiset::<CardView>::empty());
    assert(sorted@.to_multiset().add(rest@.to_multiset()) =~= sorted@.to_multiset());
    sorted
}

/// The first target with a given id lies in the list.
pub proof fn lemma_first_target_in(ts: Seq<DropTarget>, id: usize)
    ensures
        first_target(ts, id) matches Some(t) ==> exists|i: int| 0 <= i < ts.len() && ts[i] == t,
    decreases ts.len(),
{
    if ts.len() > 0 && ts[0].id != id {
        lemma_first_target_in(ts.drop_first(), id);
        if first_target(ts, id) is Some {
            let i = choose|i: int| 0 <= i < ts.drop_first().len() && ts.drop_first()[i] == first_target(ts, id)->Some_0;
            assert(ts[i + 1] == ts.drop_first()[i]);
        }
    }
}

/// Some card of `cards` shows `st` and is attached to `zone`.
pub open spec fn holds_view(cards: Seq<CardView>, st: crate::card::CardState, zone: Option<usize>) -> bool {
    exists|j: int| 0 <= j < cards.len() && #[trigger] cards[j].card_state == st && cards[j].attached_to_target == zone
}

/// A recompute moves cards but keeps what each shows and where it is
/// attached.
pub proof fn lemma_relaid_keeps(cards: Seq<CardView>, targets: Seq<DropTarget>, zone: usize, i: int)
    requires
        0 <= i < cards.len(),
    ensures
        relaid(cards, targets, zone).len() == cards.len(),
        relaid(cards, targets, zone)[i].card_state == cards[i].card_state,
        relaid(cards, targets, zone)[i].attached_to_target == cards[i].attached_to_target,
{
}

/// Cards that a permutation brings are cards that were there.
pub proof fn lemma_in_range_multiset(a: Seq<CardView>, b: Seq<CardView>, i: int)
    requires
        a.to_multiset() == b.to_multiset(),
        all_in_range(a),
        0 <= i < b.len(),
    ensures
        b[i].in_range(),
{
    to_multiset_contains(b, b[i]);
    assert(b.contains(b[i]));
    to_multiset_contains(a, b[i]);
    let j = choose|j: int| 0 <= j < a.len() && a[j] == b[i];
    assert(a[j].in_range());
}

pub proof fn lemma_len_multiset(a: Seq<CardView>, b: Seq<CardView>)
    requires
        a.to_multiset() == b.to_multiset(),
    ensures
        a.len() == b.len(),
{
    to_multiset_len(a);
    to_multiset_len(b);
}

} // verus!
