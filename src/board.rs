//! The client's board interaction state machine: focus on hover, drag on
//! press, drop resolution on release, and zone recompute after a change.

use vstd::prelude::*;
use vstd::seq_lib::to_multiset_contains;

use crate::card::{CardState, InstanceId};
use crate::layout::{
    all_in_range, depth_sorted, find_target, lay_out, lemma_first_target_in, lemma_in_range_multiset,
    lemma_len_multiset, holds_view, lemma_relaid_keeps, relaid, sort_by_depth, MAX_CARDS,
};
use crate::protocol::{ActionReq, CommonState};
use crate::view::{
    covers, overlaps, point_in, CardView, DropTarget, Point, COORD_LIMIT, FOCUS_SCALE, MY_DECK,
    MY_HAND, OTHER_DECK, OTHER_HAND, POSITION_LIMIT, REST_SCALE,
};

verus! {

/// A drag in progress: which card, where it came from, and where the
/// pointer held it relative to its centre.
#[derive(Clone, Copy, Debug, PartialEq, Eq, Structural)]
pub struct DragInfo {
    pub selected_card: usize,
    pub from_position: Point,
    pub from_target_id: Option<usize>,
    pub drag_offset: Point,
}

/// The card under focus and the scale it had before.
#[derive(Clone, Copy, Debug, PartialEq, Eq, Structural)]
pub struct FocusInfo {
    pub selected_card: usize,
    pub previous_scale: u32,
}

/// The state of the pointer's button in one frame.
#[derive(Clone, Copy, Debug, PartialEq, Eq, Structural)]
pub struct PointerButtons {
    pub pressed: bool,
    pub down: bool,
    pub released: bool,
}

/// The drop targets and card views of one client, with the interaction in
/// progress: idle, focused on a card, or dragging one.
pub struct Board {
    pub targets: Vec<DropTarget>,
    pub cards: Vec<CardView>,
    pub current_drag: Option<DragInfo>,
    pub current_focus: Option<FocusInfo>,
}

/// Bound on the coordinates of a drag offset.
pub open spec fn offset_limit() -> int {
    COORD_LIMIT + POSITION_LIMIT
}

/// `i` is the first card of `cards` that lies under `p`.
pub open spec fn first_hit_at(cards: Seq<CardView>, p: Point, i: int) -> bool {
    &&& 0 <= i < cards.len()
    &&& covers(cards[i].position, cards[i].size, p)
    &&& forall|j: int| 0 <= j < i ==> !covers(#[trigger] cards[j].position, cards[j].size, p)
}

/// The first card of `cards` that lies under `p`, if any.
pub open spec fn first_hit(cards: Seq<CardView>, p: Point) -> Option<int> {
    if exists|i: int| first_hit_at(cards, p, i) {
        Some(choose|i: int| first_hit_at(cards, p, i))
    } else {
        None
    }
}

pub proof fn lemma_first_hit_unique(cards: Seq<CardView>, p: Point, i: int)
    requires
        first_hit_at(cards, p, i),
    ensures
        first_hit(cards, p) == Some(i),
{
    let k = choose|k: int| first_hit_at(cards, p, k);
    if k < i {
        assert(!covers(cards[k].position, cards[k].size, p));
    } else if k > i {
        assert(!covers(cards[i].position, cards[i].size, p));
    }
}

/// Every card at rest scale.
pub open spec fn at_rest(cards: Seq<CardView>) -> Seq<CardView> {
    Seq::new(cards.len(), |i: int| CardView { zoom_in: REST_SCALE, ..cards[i] })
}

/// The cards after the hover step: the card under the pointer is enlarged
/// when nothing had focus; with nothing under the pointer every card is at
/// rest.
pub open spec fn hover_cards(cards: Seq<CardView>, focus: Option<FocusInfo>, p: Point) -> Seq<CardView> {
    match first_hit(cards, p) {
        Some(i) => if focus is None {
            cards.update(i, CardView { zoom_in: FOCUS_SCALE, ..cards[i] })
        } else {
            cards
        },
        None => at_rest(cards),
    }
}

/// The focus after the hover step.
pub open spec fn hover_focus(cards: Seq<CardView>, focus: Option<FocusInfo>, p: Point) -> Option<FocusInfo> {
    match first_hit(cards, p) {
        Some(i) => if focus is None {
            Some(FocusInfo { selected_card: i as usize, previous_scale: REST_SCALE })
        } else {
            focus
        },
        None => None,
    }
}

/// `v` kept within the bound on card positions.
pub open spec fn clamp(v: int) -> int {
    if v < -POSITION_LIMIT {
        -POSITION_LIMIT as int
    } else if v > POSITION_LIMIT {
        POSITION_LIMIT as int
    } else {
        v
    }
}

/// Where a card at `pos` goes when the pointer, holding it at `off`, is at
/// `p`: it follows on the table plane and keeps its height.
pub open spec fn dragged_to(pos: Point, p: Point, off: Point) -> Point {
    Point { x: clamp(p.x - off.x) as i64, y: pos.y, z: clamp(p.z - off.z) as i64 }
}

/// `i` is the first target that accepts a card from zone `from` and that
/// the card rectangle at `pos`, `size` overlaps.
pub open spec fn accepting_at(targets: Seq<DropTarget>, pos: Point, size: crate::view::Extent, from: Option<usize>, i: int) -> bool {
    &&& 0 <= i < targets.len()
    &&& accepts(targets[i], pos, size, from)
    &&& forall|j: int| 0 <= j < i ==> !accepts(#[trigger] targets[j], pos, size, from)
}

/// Target `t` takes a card at `pos`, `size` that came from zone `from`.
pub open spec fn accepts(t: DropTarget, pos: Point, size: crate::view::Extent, from: Option<usize>) -> bool {
    (t.can_drop || Some(t.id) == from) && overlaps(pos, size, t.anchor, t.size)
}

/// The zone a card at `pos`, `size` taken from zone `from` lands in: the
/// first target in order that takes it, else its origin.
pub open spec fn drop_destination(targets: Seq<DropTarget>, pos: Point, size: crate::view::Extent, from: Option<usize>) -> Option<usize> {
    if exists|i: int| accepting_at(targets, pos, size, from, i) {
        Some(targets[choose|i: int| accepting_at(targets, pos, size, from, i)].id)
    } else {
        from
    }
}

/// A drop from the local deck onto the local hand is a draw request.
pub open spec fn is_draw_request(from: Option<usize>, dest: Option<usize>) -> bool {
    from == Some(MY_DECK) && dest == Some(MY_HAND)
}

/// The zone a released card is attached to: its destination, except that a
/// draw request leaves it at its origin until the server answers.
pub open spec fn settled_zone(from: Option<usize>, dest: Option<usize>) -> Option<usize> {
    if is_draw_request(from, dest) {
        from
    } else {
        dest
    }
}

/// The card `c` put down in zone `zone`.
pub open spec fn put_down(c: CardView, zone: Option<usize>) -> CardView {
    match zone {
        Some(z) => CardView { attached_to_target: Some(z), is_grabbed: false, ..c },
        None => CardView { is_grabbed: false, ..c },
    }
}

/// `after` holds the same cards as `cards` after zone `zone` is recomputed,
/// in depth order.
pub open spec fn recomputed(after: Seq<CardView>, cards: Seq<CardView>, targets: Seq<DropTarget>, zone: usize) -> bool {
    &&& after.to_multiset() == relaid(cards, targets, zone).to_multiset()
    &&& depth_sorted(after)
}

/// `i` is the first grabbed card of `cards`.
pub open spec fn first_grabbed_at(cards: Seq<CardView>, i: int) -> bool {
    &&& 0 <= i < cards.len()
    &&& cards[i].is_grabbed
    &&& forall|j: int| 0 <= j < i ==> !(#[trigger] cards[j]).is_grabbed
}

/// The drag `drag` pointed at the first grabbed card of `cards`, where some
/// card is grabbed.
pub open spec fn regrabbed(drag: Option<DragInfo>, cards: Seq<CardView>) -> Option<DragInfo> {
    match drag {
        Some(d) => if exists|i: int| first_grabbed_at(cards, i) {
            Some(DragInfo { selected_card: (choose|i: int| first_grabbed_at(cards, i)) as usize, ..d })
        } else {
            Some(d)
        },
        None => None,
    }
}

impl Board {
    pub open spec fn wf(&self) -> bool {
        &&& forall|i: int| 0 <= i < self.targets@.len() ==> (#[trigger] self.targets@[i]).in_range()
        &&& all_in_range(self.cards@)
        &&& self.cards@.len() <= MAX_CARDS
        &&& self.current_drag matches Some(d) ==> point_in(d.drag_offset, offset_limit())
    }

    /// An idle board over `targets`, without cards.
    pub fn new(targets: Vec<DropTarget>) -> (r: Board)
        requires
            forall|i: int| 0 <= i < targets@.len() ==> (#[trigger] targets@[i]).in_range(),
        ensures
            r.wf(),
            r.targets@ == targets@,
            r.cards@.len() == 0,
            r.current_drag is None,
            r.current_focus is None,
    {
        Board { targets, cards: Vec::new(), current_drag: None, current_focus: None }
    }

    /// Recomputes zone `target_id`: its cards are placed by the first target
    /// with that id, then the whole card list is ordered by height, highest
    /// first.
    pub fn update_layout(&mut self, target_id: usize)
        requires
            old(self).wf(),
        ensures
            final(self).wf(),
            final(self).targets@ == old(self).targets@,
            final(self).current_drag == regrabbed(old(self).current_drag, final(self).cards@),
            final(self).current_focus == old(self).current_focus,
            recomputed(final(self).cards@, old(self).cards@, old(self).targets@, target_id),
    {
        match find_target(&self.targets, target_id) {
            Some(t) => {
                if self.cards.len() > 0 {
                    proof {
                        let ts = self.targets@;
                        lemma_first_target_in(ts, target_id);
                    }
                    lay_out(&mut self.cards, t);
                }
            },
            None => {},
        }
        let ghost laid = self.cards@;
        let mut taken: Vec<CardView> = Vec::new();
        std::mem::swap(&mut self.cards, &mut taken);
        self.cards = sort_by_depth(taken);
        proof {
            assert forall|i: int| 0 <= i < self.cards@.len() implies (#[trigger] self.cards@[i]).in_range() by {
                lemma_in_range_multiset(laid, self.cards@, i);
            }
            lemma_len_multiset(laid, self.cards@);
        }
        self.regrab();
    }

    /// Points the drag in progress, if any, at the first grabbed card, which
    /// a re-sort may have moved.
    fn regrab(&mut self)
        requires
            old(self).wf(),
        ensures
            final(self).wf(),
            final(self).targets@ == old(self).targets@,
            final(self).cards@ == old(self).cards@,
            final(self).current_focus == old(self).current_focus,
            final(self).current_drag == regrabbed(old(self).current_drag, old(self).cards@),
    {
        match self.current_drag {
            Some(d) => {
                let mut i: usize = 0;
                while i < self.cards.len()
                    invariant
                        old(self).wf(),
                        old(self).current_drag == Some(d),
                        self.cards@ == old(self).cards@,
                        self.targets@ == old(self).targets@,
                        self.current_focus == old(self).current_focus,
                        self.current_drag == old(self).current_drag,
                        i <= self.cards@.len(),
                        forall|j: int| 0 <= j < i ==> !(#[trigger] self.cards@[j]).is_grabbed,
                    decreases self.cards@.len() - i,
                {
                    if self.cards[i].is_grabbed {
                        proof {
                            let k = choose|k: int| first_grabbed_at(self.cards@, k);
                            assert(first_grabbed_at(self.cards@, i as int));
                            if k < i {
                                assert(!self.cards@[k].is_grabbed);
                            } else if k > i {
                                assert(!self.cards@[i as int].is_grabbed);
                            }
                        }
                        self.current_drag = Some(DragInfo { selected_card: i, ..d });
                        return;
                    }
                    i = i + 1;
                }
                assert forall|k: int| !first_grabbed_at(self.cards@, k) by {
                    if 0 <= k < self.cards@.len() {
                        assert(!self.cards@[k].is_grabbed);
                    }
                }
            },
            None => {},
        }
    }

    /// Attaches `card` to zone `target_id` and recomputes that zone.
    pub fn add_card_to_target(&mut self, card: CardView, target_id: usize)
        requires
            old(self).wf(),
            old(self).cards@.len() < MAX_CARDS,
            card.in_range(),
        ensures
            final(self).wf(),
            final(self).targets@ == old(self).targets@,
            final(self).current_drag == regrabbed(old(self).current_drag, final(self).cards@),
            final(self).current_focus == old(self).current_focus,
            recomputed(
                final(self).cards@,
                old(self).cards@.push((CardView { attached_to_target: Some(target_id), ..card })),
                old(self).targets@,
                target_id,
            ),
    {
        let mut card = card;
        card.attached_to_target = Some(target_id);
        self.cards.push(card);
        self.update_layout(target_id);
    }

    /// The first card under `mouse_world`, if any.
    pub fn check_intersection(&self, mouse_world: Point) -> (r: Option<usize>)
        ensures
            match r {
                Some(i) => first_hit(self.cards@, mouse_world) == Some(i as int),
                None => first_hit(self.cards@, mouse_world) is None,
            },
    {
        let mut i: usize = 0;
        while i < self.cards.len()
            invariant
                i <= self.cards@.len(),
                forall|j: int| 0 <= j < i ==> !covers(#[trigger] self.cards@[j].position, self.cards@[j].size, mouse_world),
            decreases self.cards@.len() - i,
        {
            if self.cards[i].intersects(mouse_world) {
                proof {
                    lemma_first_hit_unique(self.cards@, mouse_world, i as int);
                }
                return Some(i);
            }
            i = i + 1;
        }
        assert forall|k: int| !first_hit_at(self.cards@, mouse_world, k) by {
            if 0 <= k < self.cards@.len() {
                assert(!covers(self.cards@[k].position, self.cards@[k].size, mouse_world));
            }
        }
        None
    }

    /// Puts every card back at rest scale and clears the focus.
    pub fn zoom_out_all_cards(&mut self)
        requires
            old(self).wf(),
        ensures
            final(self).wf(),
            final(self).targets@ == old(self).targets@,
            final(self).cards@ == at_rest(old(self).cards@),
            final(self).current_drag == old(self).current_drag,
            final(self).current_focus is None,
    {
        let ghost c0 = self.cards@;
        let mut i: usize = 0;
        while i < self.cards.len()
            invariant
                old(self).wf(),
                c0 == old(self).cards@,
                self.targets@ == old(self).targets@,
                self.current_drag == old(self).current_drag,
                i <= c0.len(),
                self.cards@.len() == c0.len(),
                forall|k: int| 0 <= k < i ==> #[trigger] self.cards@[k] == at_rest(c0)[k],
                forall|k: int| i <= k < c0.len() ==> #[trigger] self.cards@[k] == c0[k],
            decreases c0.len() - i,
        {
            self.cards[i].zoom_in = REST_SCALE;
            i = i + 1;
        }
        assert(self.cards@ =~= at_rest(c0));
        assert forall|k: int| 0 <= k < self.cards@.len() implies (#[trigger] self.cards@[k]).in_range() by {
            assert(c0[k].in_range());
        }
        self.current_focus = None;
    }
}


/// `i` is the first card of `cards` that shows instance `id`.
pub open spec fn first_of_instance_at(cards: Seq<CardView>, id: InstanceId, i: int) -> bool {
    &&& 0 <= i < cards.len()
    &&& cards[i].card_state.instance() == id
    &&& forall|j: int| 0 <= j < i ==> (#[trigger] cards[j]).card_state.instance() != id
}

/// The first card of `cards` that shows instance `id`, if any.
pub open spec fn first_of_instance(cards: Seq<CardView>, id: InstanceId) -> Option<int> {
    if exists|i: int| first_of_instance_at(cards, id, i) {
        Some(choose|i: int| first_of_instance_at(cards, id, i))
    } else {
        None
    }
}

/// The zone a card drawn by the server goes to: the local hand when it is
/// shown, the opponent's when it is hidden.
pub open spec fn drawn_zone(card: CardState) -> usize {
    if card is Revealed {
        MY_HAND
    } else {
        OTHER_HAND
    }
}

impl Board {
    /// The hover step: with nothing under focus, the first card under the
    /// pointer is enlarged and focused; with nothing under the pointer,
    /// every card is put back at rest and the focus cleared.
    pub fn hover(&mut self, mouse_world: Point)
        requires
            old(self).wf(),
        ensures
            final(self).wf(),
            final(self).targets@ == old(self).targets@,
            final(self).current_drag == old(self).current_drag,
            final(self).cards@ == hover_cards(old(self).cards@, old(self).current_focus, mouse_world),
            final(self).current_focus == hover_focus(old(self).cards@, old(self).current_focus, mouse_world),
    {
        match self.check_intersection(mouse_world) {
            Some(i) => {
                if self.current_focus.is_none() {
                    let ghost c0 = self.cards@;
                    self.cards[i].zoom_in = FOCUS_SCALE;
                    self.current_focus = Some(FocusInfo { selected_card: i, previous_scale: REST_SCALE });
                    assert(self.cards@ =~= c0.update(i as int, CardView { zoom_in: FOCUS_SCALE, ..c0[i as int] }));
                    assert forall|k: int| 0 <= k < self.cards@.len() implies (#[trigger] self.cards@[k]).in_range() by {
                        assert(c0[k].in_range());
                    }
                }
            },
            None => {
                self.zoom_out_all_cards();
            },
        }
    }

    /// A press: the focus is dropped and every card put at rest; the first
    /// card under the pointer, if any, is grabbed where the pointer holds it.
    pub fn press(&mut self, mouse_world: Point)
        requires
            old(self).wf(),
            point_in(mouse_world, COORD_LIMIT as int),
        ensures
            final(self).wf(),
            final(self).targets@ == old(self).targets@,
            final(self).current_focus is None,
            match first_hit(old(self).cards@, mouse_world) {
                Some(i) => {
                    let c = at_rest(old(self).cards@)[i];
                    &&& final(self).cards@ == at_rest(old(self).cards@).update(i, CardView { is_grabbed: true, ..c })
                    &&& final(self).current_drag == Some(
                        DragInfo {
                            selected_card: i as usize,
                            from_position: c.position,
                            from_target_id: c.attached_to_target,
                            drag_offset: Point {
                                x: (mouse_world.x - c.position.x) as i64,
                                y: (mouse_world.y - c.position.y) as i64,
                                z: (mouse_world.z - c.position.z) as i64,
                            },
                        },
                    )
                },
                None => final(self).cards@ == at_rest(old(self).cards@) && final(self).current_drag
                    == old(self).current_drag,
            },
    {
        let ghost c0 = self.cards@;
        self.zoom_out_all_cards();
        proof {
            lemma_first_hit_at_rest(c0, mouse_world);
        }
        match self.check_intersection(mouse_world) {
            Some(i) => {
                let ghost c1 = self.cards@;
                assert(c1[i as int].in_range());
                self.cards[i].is_grabbed = true;
                let pos = self.cards[i].position;
                self.current_drag = Some(
                    DragInfo {
                        selected_card: i,
                        from_position: pos,
                        from_target_id: self.cards[i].attached_to_target,
                        drag_offset: Point {
                            x: mouse_world.x - pos.x,
                            y: mouse_world.y - pos.y,
                            z: mouse_world.z - pos.z,
                        },
                    },
                );
                assert(self.cards@ =~= c1.update(i as int, CardView { is_grabbed: true, ..c1[i as int] }));
                assert forall|k: int| 0 <= k < self.cards@.len() implies (#[trigger] self.cards@[k]).in_range() by {
                    assert(c1[k].in_range());
                }
            },
            None => {},
        }
    }

    /// The button held: the dragged card follows the pointer on the table
    /// plane, keeping its height.
    pub fn hold(&mut self, mouse_world: Point)
        requires
            old(self).wf(),
            point_in(mouse_world, COORD_LIMIT as int),
        ensures
            final(self).wf(),
            final(self).targets@ == old(self).targets@,
            final(self).current_drag == old(self).current_drag,
            final(self).current_focus == old(self).current_focus,
            match old(self).current_drag {
                Some(d) => if d.selected_card < old(self).cards@.len() {
                    let c = old(self).cards@[d.selected_card as int];
                    final(self).cards@ == old(self).cards@.update(
                        d.selected_card as int,
                        CardView { position: dragged_to(c.position, mouse_world, d.drag_offset), ..c },
                    )
                } else {
                    final(self).cards@ == old(self).cards@
                },
                None => final(self).cards@ == old(self).cards@,
            },
    {
        match self.current_drag {
            Some(d) => {
                if d.selected_card < self.cards.len() {
                    let ghost c0 = self.cards@;
                    let i = d.selected_card;
                    let y = self.cards[i].position.y;
                    let x = clamp_coord(mouse_world.x as i128 - d.drag_offset.x as i128);
                    let z = clamp_coord(mouse_world.z as i128 - d.drag_offset.z as i128);
                    assert(c0[i as int].in_range());
                    self.cards[i].position = Point { x, y, z };
                    assert(self.cards@ =~= c0.update(
                        i as int,
                        CardView { position: dragged_to(c0[i as int].position, mouse_world, d.drag_offset), ..c0[i as int] },
                    ));
                    assert forall|k: int| 0 <= k < self.cards@.len() implies (#[trigger] self.cards@[k]).in_range() by {
                        assert(c0[k].in_range());
                    }
                }
            },
            None => {},
        }
    }

    /// Where the card at `index`, taken from zone `from`, lands: the first
    /// target in order that takes it, else its origin.
    pub fn drop_target_for(&self, index: usize, from: Option<usize>) -> (r: Option<usize>)
        requires
            index < self.cards@.len(),
        ensures
            r == drop_destination(self.targets@, self.cards@[index as int].position, self.cards@[index as int].size, from),
    {
        let card = &self.cards[index];
        let ghost pos = card.position;
        let ghost size = card.size;
        let mut i: usize = 0;
        while i < self.targets.len()
            invariant
                i <= self.targets@.len(),
                pos == self.cards@[index as int].position,
                size == self.cards@[index as int].size,
                *card == self.cards@[index as int],
                forall|j: int| 0 <= j < i ==> !accepts(#[trigger] self.targets@[j], pos, size, from),
            decreases self.targets@.len() - i,
        {
            let t = &self.targets[i];
            let own = match from {
                Some(f) => f == t.id,
                None => false,
            };
            if (t.can_drop || own) && card.intersects_area(t) {
                proof {
                    lemma_accepting_unique(self.targets@, pos, size, from, i as int);
                }
                return Some(t.id);
            }
            i = i + 1;
        }
        assert forall|k: int| !accepting_at(self.targets@, pos, size, from, k) by {
            if 0 <= k < self.targets@.len() {
                assert(!accepts(self.targets@[k], pos, size, from));
            }
        }
        from
    }

    /// A release: the dragged card is put down in the zone it lands in and
    /// that zone recomputed. A drop from the local deck onto the local hand
    /// asks the server for a draw instead, and the card goes back to the
    /// deck until the server's answer moves the drawn card.
    pub fn release(&mut self) -> (r: Option<ActionReq>)
        requires
            old(self).wf(),
        ensures
            final(self).wf(),
            final(self).targets@ == old(self).targets@,
            final(self).current_focus == old(self).current_focus,
            final(self).current_drag is None,
            match old(self).current_drag {
                Some(d) => if d.selected_card < old(self).cards@.len() {
                    let c = old(self).cards@[d.selected_card as int];
                    let dest = drop_destination(old(self).targets@, c.position, c.size, d.from_target_id);
                    let zone = settled_zone(d.from_target_id, dest);
                    let put = old(self).cards@.update(d.selected_card as int, put_down(c, zone));
                    &&& (r is Some <==> is_draw_request(d.from_target_id, dest))
                    &&& (r matches Some(a) ==> a is DrawCard)
                    &&& match zone {
                        Some(z) => recomputed(final(self).cards@, put, old(self).targets@, z),
                        None => final(self).cards@ == put,
                    }
                } else {
                    r is None && final(self).cards@ == old(self).cards@
                },
                None => r is None && final(self).cards@ == old(self).cards@,
            },
    {
        let d = match self.current_drag {
            Some(d) => d,
            None => {
                return None;
            },
        };
        self.current_drag = None;
        let i = d.selected_card;
        if i >= self.cards.len() {
            return None;
        }
        let dest = self.drop_target_for(i, d.from_target_id);
        let request = match (d.from_target_id, dest) {
            (Some(from), Some(to)) => from == MY_DECK && to == MY_HAND,
            _ => false,
        };
        let zone = if request {
            d.from_target_id
        } else {
            dest
        };
        let ghost c0 = self.cards@;
        self.cards[i].is_grabbed = false;
        match zone {
            Some(z) => {
                self.cards[i].attached_to_target = Some(z);
            },
            None => {},
        }
        assert(self.cards@ =~= c0.update(i as int, put_down(c0[i as int], zone)));
        assert forall|k: int| 0 <= k < self.cards@.len() implies (#[trigger] self.cards@[k]).in_range() by {
            assert(c0[k].in_range());
        }
        match zone {
            Some(z) => self.update_layout(z),
            None => {},
        }
        if request {
            Some(ActionReq::DrawCard)
        } else {
            None
        }
    }

    /// One frame of interaction. Without a drag, hovering moves the focus.
    /// Then a press starts a drag, a held button moves the dragged card, and
    /// a release drops it; the result is the request to send to the server,
    /// if the drop asks for one.
    pub fn update(&mut self, mouse_world: Point, buttons: PointerButtons) -> (r: Option<ActionReq>)
        requires
            old(self).wf(),
            point_in(mouse_world, COORD_LIMIT as int),
        ensures
            final(self).wf(),
            final(self).targets@ == old(self).targets@,
            ({
                let idle = old(self).current_drag is None;
                let c1 = if idle {
                    hover_cards(old(self).cards@, old(self).current_focus, mouse_world)
                } else {
                    old(self).cards@
                };
                let f1 = if idle {
                    hover_focus(old(self).cards@, old(self).current_focus, mouse_world)
                } else {
                    old(self).current_focus
                };
                if buttons.pressed && idle {
                    &&& r is None
                    &&& final(self).current_focus is None
                    &&& match first_hit(c1, mouse_world) {
                        Some(i) => {
                            let c = at_rest(c1)[i];
                            &&& final(self).cards@ == at_rest(c1).update(i, CardView { is_grabbed: true, ..c })
                            &&& final(self).current_drag == Some(
                                DragInfo {
                                    selected_card: i as usize,
                                    from_position: c.position,
                                    from_target_id: c.attached_to_target,
                                    drag_offset: Point {
                                        x: (mouse_world.x - c.position.x) as i64,
                                        y: (mouse_world.y - c.position.y) as i64,
                                        z: (mouse_world.z - c.position.z) as i64,
                                    },
                                },
                            )
                        },
                        None => final(self).cards@ == at_rest(c1) && final(self).current_drag is None,
                    }
                } else if buttons.down {
                    &&& r is None
                    &&& final(self).current_focus == f1
                    &&& final(self).current_drag == old(self).current_drag
                    &&& match old(self).current_drag {
                        Some(d) => if d.selected_card < c1.len() {
                            let c = c1[d.selected_card as int];
                            final(self).cards@ == c1.update(
                                d.selected_card as int,
                                CardView { position: dragged_to(c.position, mouse_world, d.drag_offset), ..c },
                            )
                        } else {
                            final(self).cards@ == c1
                        },
                        None => final(self).cards@ == c1,
                    }
                } else if buttons.released {
                    &&& final(self).current_focus == f1
                    &&& final(self).current_drag is None
                    &&& match old(self).current_drag {
                        Some(d) => if d.selected_card < c1.len() {
                            let c = c1[d.selected_card as int];
                            let dest = drop_destination(old(self).targets@, c.position, c.size, d.from_target_id);
                            let zone = settled_zone(d.from_target_id, dest);
                            let put = c1.update(d.selected_card as int, put_down(c, zone));
                            &&& (r is Some <==> is_draw_request(d.from_target_id, dest))
                            &&& (r matches Some(a) ==> a is DrawCard)
                            &&& match zone {
                                Some(z) => recomputed(final(self).cards@, put, old(self).targets@, z),
                                None => final(self).cards@ == put,
                            }
                        } else {
                            r is None && final(self).cards@ == c1
                        },
                        None => r is None && final(self).cards@ == c1,
                    }
                } else {
                    &&& r is None
                    &&& final(self).cards@ == c1
                    &&& final(self).current_focus == f1
                    &&& final(self).current_drag == old(self).current_drag
                }
            }),
    {
        if self.current_drag.is_none() {
            self.hover(mouse_world);
        }
        if buttons.pressed && self.current_drag.is_none() {
            self.press(mouse_world);
            None
        } else if buttons.down {
            self.hold(mouse_world);
            None
        } else if buttons.released {
            self.release()
        } else {
            None
        }
    }

    /// Applies the server's report of a drawn card: the card view of that
    /// instance takes the new projection and moves to the local hand when
    /// shown, to the opponent's hand when hidden, and that zone is
    /// recomputed. Gives whether the instance was on the board.
    pub fn draw_card(&mut self, card_state: CardState) -> (found: bool)
        requires
            old(self).wf(),
        ensures
            final(self).wf(),
            final(self).targets@ == old(self).targets@,
            found ==> final(self).current_drag == regrabbed(old(self).current_drag, final(self).cards@),
            !found ==> final(self).current_drag == old(self).current_drag,
            final(self).current_focus == old(self).current_focus,
            match first_of_instance(old(self).cards@, card_state.instance()) {
                Some(i) => found && recomputed(
                    final(self).cards@,
                    old(self).cards@.update(
                        i,
                        CardView {
                            card_state,
                            attached_to_target: Some(drawn_zone(card_state)),
                            ..old(self).cards@[i]
                        },
                    ),
                    old(self).targets@,
                    drawn_zone(card_state),
                ),
                None => !found && final(self).cards@ == old(self).cards@,
            },
    {
        let id = card_state.get_instance_id();
        let ghost c0 = self.cards@;
        let mut i: usize = 0;
        while i < self.cards.len()
            invariant
                old(self).wf(),
                c0 == old(self).cards@,
                self.cards@ == c0,
                self.targets@ == old(self).targets@,
                self.current_drag == old(self).current_drag,
                self.current_focus == old(self).current_focus,
                i <= c0.len(),
                id == card_state.instance(),
                forall|j: int| 0 <= j < i ==> (#[trigger] c0[j]).card_state.instance() != id,
            decreases c0.len() - i,
        {
            if self.cards[i].card_state.get_instance_id() == id {
                proof {
                    lemma_first_of_instance_unique(c0, id, i as int);
                }
                let zone = match card_state {
                    CardState::Revealed(..) => MY_HAND,
                    CardState::Hidden(..) => OTHER_HAND,
                };
                let ghost cs = card_state;
                self.cards[i].card_state = card_state;
                self.cards[i].attached_to_target = Some(zone);
                assert(self.cards@ =~= c0.update(
                    i as int,
                    CardView { card_state: cs, attached_to_target: Some(drawn_zone(cs)), ..c0[i as int] },
                ));
                assert forall|k: int| 0 <= k < self.cards@.len() implies (#[trigger] self.cards@[k]).in_range() by {
                    assert(c0[k].in_range());
                }
                self.update_layout(zone);
                return true;
            }
            i = i + 1;
        }
        assert forall|k: int| !first_of_instance_at(c0, id, k) by {
            if 0 <= k < c0.len() {
                assert(c0[k].card_state.instance() != id);
            }
        }
        false
    }
}

impl Board {
    /// Adds a card view for each of `states`, in order, attached to zone
    /// `zone`, recomputing the zone after each.
    pub fn place_zone(&mut self, states: &Vec<CardState>, zone: usize)
        requires
            old(self).wf(),
            old(self).cards@.len() + states@.len() <= MAX_CARDS,
        ensures
            final(self).wf(),
            final(self).targets@ == old(self).targets@,
            final(self).current_drag is None <==> old(self).current_drag is None,
            final(self).current_focus == old(self).current_focus,
            final(self).cards@.len() == old(self).cards@.len() + states@.len(),
            forall|st: CardState, z: Option<usize>| #[trigger] holds_view(old(self).cards@, st, z) ==> holds_view(final(self).cards@, st, z),
            forall|k: int| 0 <= k < states@.len() ==> holds_view(final(self).cards@, #[trigger] states@[k], Some(zone)),
    {
        let mut i: usize = 0;
        while i < states.len()
            invariant
                self.wf(),
                i <= states@.len(),
                self.targets@ == old(self).targets@,
                self.current_drag is None <==> old(self).current_drag is None,
                self.current_focus == old(self).current_focus,
                self.cards@.len() == old(self).cards@.len() + i,
                old(self).cards@.len() + states@.len() <= MAX_CARDS,
                forall|st: CardState, z: Option<usize>| #[trigger] holds_view(old(self).cards@, st, z) ==> holds_view(self.cards@, st, z),
                forall|k: int| 0 <= k < i ==> holds_view(self.cards@, #[trigger] states@[k], Some(zone)),
            decreases states@.len() - i,
        {
            let ghost c0 = self.cards@;
            let view = CardView::new(states[i].duplicate());
            let ghost pushed = c0.push((CardView { attached_to_target: Some(zone), ..view }));
            self.add_card_to_target(view, zone);
            proof {
                lemma_recomputed_keeps(self.cards@, pushed, self.targets@, zone);
                assert(pushed[c0.len() as int].card_state == states@[i as int]);
                assert forall|st: CardState, z: Option<usize>| #[trigger] holds_view(c0, st, z) implies holds_view(self.cards@, st, z) by {
                    let j = choose|j: int| 0 <= j < c0.len() && #[trigger] c0[j].card_state == st && c0[j].attached_to_target == z;
                    assert(pushed[j] == c0[j]);
                }
                assert forall|k: int| 0 <= k <= i implies holds_view(self.cards@, #[trigger] states@[k], Some(zone)) by {
                    if k < i {
                        assert(holds_view(c0, states@[k], Some(zone)));
                    } else {
                        assert(holds_view(self.cards@, pushed[c0.len() as int].card_state, pushed[c0.len() as int].attached_to_target));
                    }
                }
            }
            i = i + 1;
        }
    }

    /// Puts the cards of a joining player's snapshot on the board: its own
    /// hand and deck in the local zones, the opponent's in the other ones.
    pub fn load_initial(&mut self, mine: &CommonState, other: &CommonState)
        requires
            old(self).wf(),
            old(self).cards@.len() + mine.hand@.len() + mine.deck@.len() + other.hand@.len() + other.deck@.len() <= MAX_CARDS,
        ensures
            final(self).wf(),
            final(self).targets@ == old(self).targets@,
            final(self).cards@.len() == old(self).cards@.len() + mine.hand@.len() + mine.deck@.len() + other.hand@.len()
                + other.deck@.len(),
            forall|k: int| 0 <= k < mine.hand@.len() ==> holds_view(final(self).cards@, #[trigger] mine.hand@[k], Some(MY_HAND)),
            forall|k: int| 0 <= k < mine.deck@.len() ==> holds_view(final(self).cards@, #[trigger] mine.deck@[k], Some(MY_DECK)),
            forall|k: int| 0 <= k < other.hand@.len() ==> holds_view(final(self).cards@, #[trigger] other.hand@[k], Some(OTHER_HAND)),
            forall|k: int| 0 <= k < other.deck@.len() ==> holds_view(final(self).cards@, #[trigger] other.deck@[k], Some(OTHER_DECK)),
    {
        self.place_zone(&mine.hand, MY_HAND);
        let ghost c1 = self.cards@;
        self.place_zone(&mine.deck, MY_DECK);
        let ghost c2 = self.cards@;
        self.place_zone(&other.hand, OTHER_HAND);
        let ghost c3 = self.cards@;
        self.place_zone(&other.deck, OTHER_DECK);
        assert forall|k: int| 0 <= k < mine.hand@.len() implies holds_view(self.cards@, #[trigger] mine.hand@[k], Some(MY_HAND)) by {
            assert(holds_view(c1, mine.hand@[k], Some(MY_HAND)));
            assert(holds_view(c2, mine.hand@[k], Some(MY_HAND)));
            assert(holds_view(c3, mine.hand@[k], Some(MY_HAND)));
        }
        assert forall|k: int| 0 <= k < mine.deck@.len() implies holds_view(self.cards@, #[trigger] mine.deck@[k], Some(MY_DECK)) by {
            assert(holds_view(c2, mine.deck@[k], Some(MY_DECK)));
            assert(holds_view(c3, mine.deck@[k], Some(MY_DECK)));
        }
        assert forall|k: int| 0 <= k < other.hand@.len() implies holds_view(self.cards@, #[trigger] other.hand@[k], Some(OTHER_HAND)) by {
            assert(holds_view(c3, other.hand@[k], Some(OTHER_HAND)));
        }
    }
}

/// `v` kept within the bound on card positions.
pub fn clamp_coord(v: i128) -> (r: i64)
    ensures
        r == clamp(v as int),
{
    if v < -(POSITION_LIMIT as i128) {
        -POSITION_LIMIT
    } else if v > POSITION_LIMIT as i128 {
        POSITION_LIMIT
    } else {
        v as i64
    }
}

pub proof fn lemma_first_hit_at_rest(cards: Seq<CardView>, p: Point)
    ensures
        first_hit(at_rest(cards), p) == first_hit(cards, p),
{
    let r = at_rest(cards);
    assert forall|i: int| first_hit_at(r, p, i) <==> first_hit_at(cards, p, i) by {
        if 0 <= i < cards.len() {
            assert forall|j: int| 0 <= j < i implies (covers(r[j].position, r[j].size, p) == covers(
                cards[j].position,
                cards[j].size,
                p,
            )) by {
                assert(r[j].position == cards[j].position);
            }
            if first_hit_at(r, p, i) {
                assert forall|j: int| 0 <= j < i implies !covers(#[trigger] cards[j].position, cards[j].size, p) by {
                    assert(!covers(r[j].position, r[j].size, p));
                }
            }
            if first_hit_at(cards, p, i) {
                assert forall|j: int| 0 <= j < i implies !covers(#[trigger] r[j].position, r[j].size, p) by {
                    assert(!covers(cards[j].position, cards[j].size, p));
                }
            }
        }
    }
    if exists|i: int| first_hit_at(cards, p, i) {
        let i = choose|i: int| first_hit_at(cards, p, i);
        lemma_first_hit_unique(r, p, i);
        lemma_first_hit_unique(cards, p, i);
    }
}

/// A card that no target other than its origin takes goes back to its
/// origin: in particular, overlapping a target that refuses drops never moves
/// it there.
pub proof fn lemma_refused_drop_returns_home(
    targets: Seq<DropTarget>,
    pos: Point,
    size: crate::view::Extent,
    from: Option<usize>,
)
    requires
        forall|i: int|
            0 <= i < targets.len() && Some((#[trigger] targets[i]).id) != from ==> !targets[i].can_drop
                || !overlaps(pos, size, targets[i].anchor, targets[i].size),
    ensures
        drop_destination(targets, pos, size, from) == from,
{
    if exists|i: int| accepting_at(targets, pos, size, from, i) {
        let i = choose|i: int| accepting_at(targets, pos, size, from, i);
        assert(accepts(targets[i], pos, size, from));
    }
}

/// A refusing target is never a destination unless it is the origin.
pub proof fn lemma_refusing_target_not_chosen(
    targets: Seq<DropTarget>,
    pos: Point,
    size: crate::view::Extent,
    from: Option<usize>,
    t: int,
)
    requires
        0 <= t < targets.len(),
        !targets[t].can_drop,
        Some(targets[t].id) != from,
        forall|i: int| 0 <= i < targets.len() && i != t ==> (#[trigger] targets[i]).id != targets[t].id,
    ensures
        drop_destination(targets, pos, size, from) != Some(targets[t].id),
{
    if exists|i: int| accepting_at(targets, pos, size, from, i) {
        let i = choose|i: int| accepting_at(targets, pos, size, from, i);
        assert(accepts(targets[i], pos, size, from));
    }
}

/// After a recompute every card shown before is still shown, attached
/// where it was.
pub proof fn lemma_recomputed_keeps(after: Seq<CardView>, cards: Seq<CardView>, targets: Seq<DropTarget>, zone: usize)
    requires
        recomputed(after, cards, targets, zone),
    ensures
        after.len() == cards.len(),
        forall|i: int| 0 <= i < cards.len() ==> holds_view(after, #[trigger] cards[i].card_state, cards[i].attached_to_target),
{
    let r = relaid(cards, targets, zone);
    lemma_len_multiset(r, after);
    assert forall|i: int| 0 <= i < cards.len() implies holds_view(after, #[trigger] cards[i].card_state, cards[i].attached_to_target) by {
        lemma_relaid_keeps(cards, targets, zone, i);
        to_multiset_contains(r, r[i]);
        assert(r.contains(r[i]));
        to_multiset_contains(after, r[i]);
        let j = choose|j: int| 0 <= j < after.len() && after[j] == r[i];
        assert(after[j].card_state == cards[i].card_state);
    }
}

pub proof fn lemma_accepting_unique(
    targets: Seq<DropTarget>,
    pos: Point,
    size: crate::view::Extent,
    from: Option<usize>,
    i: int,
)
    requires
        accepting_at(targets, pos, size, from, i),
    ensures
        drop_destination(targets, pos, size, from) == Some(targets[i].id),
{
    let k = choose|k: int| accepting_at(targets, pos, size, from, k);
    if k < i {
        assert(!accepts(targets[k], pos, size, from));
    } else if k > i {
        assert(!accepts(targets[i], pos, size, from));
    }
}

pub proof fn lemma_first_of_instance_unique(cards: Seq<CardView>, id: InstanceId, i: int)
    requires
        first_of_instance_at(cards, id, i),
    ensures
        first_of_instance(cards, id) == Some(i),
{
    let k = choose|k: int| first_of_instance_at(cards, id, k);
    if k < i {
        assert(cards[k].card_state.instance() != id);
    } else if k > i {
        assert(cards[i].card_state.instance() != id);
    }
}

} // verus!
