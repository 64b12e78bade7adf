//! The entity store and the relation graph store: one in-memory state that
//! owns the card records and the directed labeled edges between them.
//!
//! Every mutation keeps the store well formed: card ids unique, each edge's
//! ordered pair unique and both endpoints live, and the relation graph
//! acyclic. Deleting a card cascades to every edge touching it, so the two
//! halves never drift apart — the in-memory analogue of one transaction.

use vstd::prelude::*;

use crate::errors::StoreError;
use crate::geometry::{rect_sums_fit, sect_spec, Dimmension, RangeParams};
use crate::graph::{acyclic, edge_pairs, would_cycle};
use crate::models::{Card, CardParams, CardRec, CardRelation, Edge};

verus! {

/// A stored card record is internally consistent: its far corner is
/// representable and its tag set carries no duplicates.
pub open spec fn rec_wf(r: CardRec) -> bool {
    &&& rect_sums_fit(r.x as int, r.y as int, r.w as int, r.h as int)
    &&& r.tag_ids@.no_duplicates()
}

/// The record's rectangle intersects the query rectangle.
pub open spec fn rec_in_range(r: CardRec, q: RangeParams) -> bool {
    sect_spec(r.x as int, r.y as int, r.w as int, r.h as int, q)
}

/// The parent of `id` as projected for callers: the parent id of the first
/// edge (in store order) that lists `id` as its child, starting the search
/// at position `i`.
pub open spec fn first_parent_from(edges: Seq<Edge>, id: i64, i: int) -> Option<i64>
    decreases edges.len() - i,
{
    if i < 0 || i >= edges.len() {
        None
    } else if edges[i].card_child_id == id {
        Some(edges[i].card_parent_id)
    } else {
        first_parent_from(edges, id, i + 1)
    }
}

/// The derived parent of `id`: the parent of the first edge that lists
/// `id` as its child, if any edge does.
pub open spec fn first_parent(edges: Seq<Edge>, id: i64) -> Option<i64> {
    first_parent_from(edges, id, 0)
}

/// `card` is the caller-facing projection of the record `rec`: same
/// fields, the rectangle split into position and size, and the parent
/// derived from the edges.
pub open spec fn card_view_of(card: Card, rec: CardRec, edges: Seq<Edge>) -> bool {
    &&& card.id == rec.id
    &&& card.position.x == rec.x
    &&& card.position.y == rec.y
    &&& card.size.x == rec.w
    &&& card.size.y == rec.h
    &&& card.title == rec.title
    &&& card.contents == rec.contents
    &&& card.parent_id == first_parent(edges, rec.id)
    &&& card.tag_ids@ == rec.tag_ids@
    &&& card.created_at == rec.created_at
    &&& card.updated_at == rec.updated_at
}

/// `rec` holds exactly what a mutation with `params` at time `now` must
/// store under the id `id`: the caller's fields, tags deduplicated.
pub open spec fn rec_from_params(rec: CardRec, params: CardParams, id: i64, now: i64) -> bool {
    &&& rec.id == id
    &&& rec.x == params.position.x
    &&& rec.y == params.position.y
    &&& rec.w == params.size.x
    &&& rec.h == params.size.y
    &&& rec.title == params.title
    &&& rec.contents == params.contents
    &&& rec.tag_ids@ == dedup_spec(params.tag_ids@)
    &&& rec.updated_at == now
}

/// The caller-facing shape of one edge.
pub open spec fn rel_of(e: Edge) -> CardRelation {
    CardRelation {
        card_parent_id: e.card_parent_id,
        card_child_id: e.card_child_id,
        path: e.path,
    }
}

/// First-occurrence deduplication of a tag list: an element is kept iff it
/// did not occur earlier.
pub open spec fn dedup_spec(s: Seq<i64>) -> Seq<i64>
    decreases s.len(),
{
    if s.len() == 0 {
        Seq::empty()
    } else {
        let rest = dedup_spec(s.drop_last());
        if s.drop_last().contains(s.last()) {
            rest
        } else {
            rest.push(s.last())
        }
    }
}

/// Deduplication keeps exactly the members and leaves no duplicates.
pub proof fn lemma_dedup_props(s: Seq<i64>)
    ensures
        dedup_spec(s).no_duplicates(),
        forall|z: i64| dedup_spec(s).contains(z) == s.contains(z),
    decreases s.len(),
{
    if s.len() > 0 {
        let t = s.drop_last();
        lemma_dedup_props(t);
        let d = dedup_spec(s);
        assert forall|z: i64| d.contains(z) == s.contains(z) by {
            if t.contains(s.last()) {
                assert(d == dedup_spec(t));
                if s.contains(z) {
                    let j = choose|j: int| 0 <= j < s.len() && s[j] == z;
                    if j < s.len() - 1 {
                        assert(t[j] == z);
                        assert(t.contains(z));
                    } else {
                        assert(z == s.last());
                        assert(t.contains(z));
                    }
                    assert(d.contains(z));
                }
                if d.contains(z) {
                    assert(t.contains(z));
                    let j = choose|j: int| 0 <= j < t.len() && t[j] == z;
                    assert(s[j] == z);
                }
            } else {
                assert(d == dedup_spec(t).push(s.last()));
                if s.contains(z) {
                    let j = choose|j: int| 0 <= j < s.len() && s[j] == z;
                    if j < s.len() - 1 {
                        assert(t[j] == z);
                        assert(t.contains(z));
                        assert(dedup_spec(t).contains(z));
                        let k = choose|k: int|
                            0 <= k < dedup_spec(t).len() && dedup_spec(t)[k] == z;
                        assert(d[k] == z);
                    } else {
                        assert(d[d.len() - 1] == z);
                    }
                    assert(d.contains(z));
                }
                if d.contains(z) {
                    let k = choose|k: int| 0 <= k < d.len() && d[k] == z;
                    if k < d.len() - 1 {
                        assert(dedup_spec(t)[k] == z);
                        assert(t.contains(z));
                        let j = choose|j: int| 0 <= j < t.len() && t[j] == z;
                        assert(s[j] == z);
                    } else {
                        assert(z == s.last());
                        assert(s[s.len() - 1] == z);
                    }
                    assert(s.contains(z));
                }
            }
        }
        assert(d.no_duplicates()) by {
            if !t.contains(s.last()) {
                assert forall|a: int, b: int| 0 <= a < b < d.len() implies d[a] != d[b] by {
                    if b < d.len() - 1 {
                        assert(dedup_spec(t)[a] == d[a] && dedup_spec(t)[b] == d[b]);
                    } else {
                        assert(d[b] == s.last());
                        assert(d[a] == dedup_spec(t)[a]);
                        if dedup_spec(t)[a] == s.last() {
                            assert(dedup_spec(t).contains(s.last()));
                        }
                    }
                }
            }
        }
    }
}

/// Copies a tag list.
fn copy_ids(v: &Vec<i64>) -> (r: Vec<i64>)
    ensures
        r@ == v@,
{
    let mut out: Vec<i64> = Vec::new();
    let mut i: usize = 0;
    while i < v.len()
        invariant
            i <= v@.len(),
            out@ == v@.subrange(0, i as int),
        decreases v@.len() - i,
    {
        out.push(v[i]);
        assert(out@ =~= v@.subrange(0, i + 1));
        i = i + 1;
    }
    assert(out@ =~= v@);
    out
}

/// Decides membership of `x` in an id list.
fn has_id(v: &Vec<i64>, x: i64) -> (r: bool)
    ensures
        r == v@.contains(x),
{
    let mut k: usize = 0;
    while k < v.len()
        invariant
            k <= v@.len(),
            forall|j: int| 0 <= j < k ==> v@[j] != x,
        decreases v@.len() - k,
    {
        if v[k] == x {
            return true;
        }
        k = k + 1;
    }
    false
}

/// Copies a tag list dropping every repeated occurrence.
fn dedup_ids(v: &Vec<i64>) -> (r: Vec<i64>)
    ensures
        r@ == dedup_spec(v@),
        r@.no_duplicates(),
{
    let mut out: Vec<i64> = Vec::new();
    let mut i: usize = 0;
    while i < v.len()
        invariant
            i <= v@.len(),
            out@ == dedup_spec(v@.subrange(0, i as int)),
        decreases v@.len() - i,
    {
        let ghost prefix = v@.subrange(0, i as int);
        let x = v[i];
        proof {
            lemma_dedup_props(prefix);
            assert(v@.subrange(0, i + 1).drop_last() =~= prefix);
            assert(v@.subrange(0, i + 1).last() == x);
        }
        if !has_id(&out, x) {
            out.push(x);
        }
        i = i + 1;
    }
    proof {
        assert(v@.subrange(0, v@.len() as int) =~= v@);
        lemma_dedup_props(v@);
    }
    out
}

/// Finds the position of the record with this id.
fn find_card_index(cards: &Vec<CardRec>, id: i64) -> (r: Option<usize>)
    ensures
        match r {
            Some(i) => i < cards@.len() && cards@[i as int].id == id,
            None => forall|i: int| 0 <= i < cards@.len() ==> (#[trigger] cards@[i]).id != id,
        },
{
    let mut i: usize = 0;
    while i < cards.len()
        invariant
            i <= cards@.len(),
            forall|j: int| 0 <= j < i ==> (#[trigger] cards@[j]).id != id,
        decreases cards@.len() - i,
    {
        if cards[i].id == id {
            return Some(i);
        }
        i = i + 1;
    }
    None
}

/// Finds the position of the edge with this ordered pair.
fn find_edge_index(edges: &Vec<Edge>, parent: i64, child: i64) -> (r: Option<usize>)
    ensures
        match r {
            Some(k) => k < edges@.len() && edges@[k as int].card_parent_id == parent
                && edges@[k as int].card_child_id == child,
            None => forall|k: int|
                0 <= k < edges@.len() ==> !((#[trigger] edges@[k]).card_parent_id == parent
                    && edges@[k].card_child_id == child),
        },
{
    let mut k: usize = 0;
    while k < edges.len()
        invariant
            k <= edges@.len(),
            forall|j: int|
                0 <= j < k ==> !((#[trigger] edges@[j]).card_parent_id == parent
                    && edges@[j].card_child_id == child),
        decreases edges@.len() - k,
    {
        if edges[k].card_parent_id == parent && edges[k].card_child_id == child {
            return Some(k);
        }
        k = k + 1;
    }
    None
}

/// Finds the derived parent of `id`: the first edge listing it as child.
fn find_parent(edges: &Vec<Edge>, id: i64) -> (r: Option<i64>)
    ensures
        r == first_parent(edges@, id),
{
    let mut k: usize = 0;
    while k < edges.len()
        invariant
            k <= edges@.len(),
            first_parent(edges@, id) == first_parent_from(edges@, id, k as int),
        decreases edges@.len() - k,
    {
        if edges[k].card_child_id == id {
            return Some(edges[k].card_parent_id);
        }
        k = k + 1;
    }
    None
}

/// Builds the caller-facing card for one record.
fn make_card(rec: &CardRec, edges: &Vec<Edge>) -> (card: Card)
    ensures
        card_view_of(card, *rec, edges@),
{
    Card {
        id: rec.id,
        position: Dimmension { x: rec.x, y: rec.y },
        size: Dimmension { x: rec.w, y: rec.h },
        title: rec.title.clone(),
        contents: rec.contents.clone(),
        parent_id: find_parent(edges, rec.id),
        tag_ids: copy_ids(&rec.tag_ids),
        created_at: rec.created_at,
        updated_at: rec.updated_at,
    }
}

/// The in-memory store: the card records, the relation edges, and the id
/// counter for the next created card.
pub struct Store {
    pub cards: Vec<CardRec>,
    pub edges: Vec<Edge>,
    pub next_card_id: i64,
}

impl Store {
    /// Some card with this id exists.
    pub open spec fn has_card(self, id: i64) -> bool {
        exists|i: int| 0 <= i < self.cards@.len() && (#[trigger] self.cards@[i]).id == id
    }

    /// Some edge with this ordered pair exists.
    pub open spec fn has_edge(self, parent: i64, child: i64) -> bool {
        exists|k: int|
            0 <= k < self.edges@.len() && (#[trigger] self.edges@[k]).card_parent_id == parent
                && self.edges@[k].card_child_id == child
    }

    /// Well-formedness, held by every store this module hands out: card
    /// ids positive, unique and below the id counter; records consistent;
    /// edge pairs unique with both endpoints live; and the relation graph
    /// acyclic.
    pub open spec fn wf(self) -> bool {
        &&& forall|i: int, j: int|
            0 <= i < j < self.cards@.len() ==> (#[trigger] self.cards@[i]).id != (
            #[trigger] self.cards@[j]).id
        &&& forall|i: int|
            0 <= i < self.cards@.len() ==> rec_wf(#[trigger] self.cards@[i]) && 1 <= self.cards@[i].id
                < self.next_card_id
        &&& 1 <= self.next_card_id
        &&& forall|k: int, l: int|
            0 <= k < l < self.edges@.len() ==> !((#[trigger] self.edges@[k]).card_parent_id == (
            #[trigger] self.edges@[l]).card_parent_id && self.edges@[k].card_child_id
                == self.edges@[l].card_child_id)
        &&& forall|k: int|
            0 <= k < self.edges@.len() ==> self.has_card((#[trigger] self.edges@[k]).card_parent_id)
                && self.has_card(self.edges@[k].card_child_id)
        &&& acyclic(edge_pairs(self.edges@))
    }

    /// A fresh, empty store. Ids start at 1.
    pub fn new() -> (s: Store)
        ensures
            s.wf(),
            s.cards@ == Seq::<CardRec>::empty(),
            s.edges@ == Seq::<Edge>::empty(),
            s.next_card_id == 1,
    {
        let s = Store { cards: Vec::new(), edges: Vec::new(), next_card_id: 1 };
        proof {
            assert(edge_pairs(s.edges@) =~= Seq::<(i64, i64)>::empty());
            assert forall|a: i64| !crate::graph::reaches(edge_pairs(s.edges@), a, a) by {
                if crate::graph::reaches(edge_pairs(s.edges@), a, a) {
                    let p = choose|p: Seq<i64>|
                        {
                            &&& crate::graph::is_path(edge_pairs(s.edges@), p)
                            &&& p.len() >= 2
                            &&& p.first() == a
                            &&& p.last() == a
                        };
                    assert(edge_pairs(s.edges@).contains((p[0], p[1])));
                }
            }
        }
        s
    }

    /// Creates a card: assigns the next free id, stamps both timestamps
    /// with `now`, stores the caller's fields (tags deduplicated), and
    /// returns the resulting card. Refused with `InvalidGeometry` when the
    /// rectangle's far corner is not representable, and with
    /// `StorageFailure` when the id space is exhausted.
    pub fn create(&mut self, params: &CardParams, now: i64) -> (r: Result<Card, StoreError>)
        requires
            old(self).wf(),
        ensures
            final(self).wf(),
            r is Ok <==> (rect_sums_fit(
                params.position.x as int,
                params.position.y as int,
                params.size.x as int,
                params.size.y as int,
            ) && old(self).next_card_id < i64::MAX),
            match r {
                Ok(card) => {
                    &&& final(self).cards@.len() == old(self).cards@.len() + 1
                    &&& final(self).cards@.drop_last() == old(self).cards@
                    &&& rec_from_params(
                        final(self).cards@.last(),
                        *params,
                        old(self).next_card_id,
                        now,
                    )
                    &&& final(self).cards@.last().created_at == now
                    &&& final(self).edges@ == old(self).edges@
                    &&& final(self).next_card_id == old(self).next_card_id + 1
                    &&& card_view_of(card, final(self).cards@.last(), final(self).edges@)
                    &&& card.parent_id is None
                },
                Err(e) => {
                    &&& *final(self) == *old(self)
                    &&& (e == StoreError::InvalidGeometry <==> !rect_sums_fit(
                        params.position.x as int,
                        params.position.y as int,
                        params.size.x as int,
                        params.size.y as int,
                    ))
                    &&& (e == StoreError::InvalidGeometry || e == StoreError::StorageFailure)
                },
            },
    {
        let sums_ok = rect_corner_ok(params.position.x, params.position.y, params.size.x, params.size.y);
        if !sums_ok {
            return Err(StoreError::InvalidGeometry);
        }
        if self.next_card_id == i64::MAX {
            return Err(StoreError::StorageFailure);
        }
        let id = self.next_card_id;
        let rec = CardRec {
            id,
            x: params.position.x,
            y: params.position.y,
            w: params.size.x,
            h: params.size.y,
            title: params.title.clone(),
            contents: params.contents.clone(),
            tag_ids: dedup_ids(&params.tag_ids),
            created_at: now,
            updated_at: now,
        };
        let card = Card {
            id,
            position: Dimmension { x: rec.x, y: rec.y },
            size: Dimmension { x: rec.w, y: rec.h },
            title: rec.title.clone(),
            contents: rec.contents.clone(),
            parent_id: None,
            tag_ids: copy_ids(&rec.tag_ids),
            created_at: now,
            updated_at: now,
        };
        let ghost old_cards = self.cards@;
        self.cards.push(rec);
        self.next_card_id = id + 1;
        proof {
            assert(self.cards@.drop_last() =~= old_cards);
            lemma_no_edge_mentions_fresh_id(*old(self), id);
            assert(first_parent_from(self.edges@, id, 0) is None) by {
                lemma_fresh_first_parent(self.edges@, id, 0);
            }
            assert forall|i: int, j: int|
                0 <= i < j < self.cards@.len() implies (#[trigger] self.cards@[i]).id != (
            #[trigger] self.cards@[j]).id by {
                if j == self.cards@.len() - 1 {
                    assert(self.cards@[i] == old_cards[i]);
                }
            }
            assert forall|k: int|
                0 <= k < self.edges@.len() implies self.has_card(
                (#[trigger] self.edges@[k]).card_parent_id,
            ) && self.has_card(self.edges@[k].card_child_id) by {
                assert(old(self).has_card(self.edges@[k].card_parent_id));
                let a = choose|a: int|
                    0 <= a < old_cards.len() && old_cards[a].id == self.edges@[k].card_parent_id;
                assert(self.cards@[a].id == self.edges@[k].card_parent_id);
                assert(old(self).has_card(self.edges@[k].card_child_id));
                let b = choose|b: int|
                    0 <= b < old_cards.len() && old_cards[b].id == self.edges@[k].card_child_id;
                assert(self.cards@[b].id == self.edges@[k].card_child_id);
            }
        }
        Ok(card)
    }

    /// Fetches the card with this id, or `NotFound`.
    pub fn get(&self, id: i64) -> (r: Result<Card, StoreError>)
        requires
            self.wf(),
        ensures
            r is Ok <==> self.has_card(id),
            match r {
                Ok(card) => exists|i: int|
                    0 <= i < self.cards@.len() && (#[trigger] self.cards@[i]).id == id
                        && card_view_of(card, self.cards@[i], self.edges@),
                Err(e) => e == StoreError::NotFound,
            },
    {
        match find_card_index(&self.cards, id) {
            Some(i) => {
                let card = make_card(&self.cards[i], &self.edges);
                proof {
                    assert(self.cards@[i as int].id == id);
                }
                Ok(card)
            },
            None => Err(StoreError::NotFound),
        }
    }

    /// Lists every card, in store order, each with its derived parent.
    pub fn list_all(&self) -> (r: Vec<Card>)
        requires
            self.wf(),
        ensures
            r@.len() == self.cards@.len(),
            forall|i: int|
                0 <= i < r@.len() ==> card_view_of(#[trigger] r@[i], self.cards@[i], self.edges@),
    {
        let mut out: Vec<Card> = Vec::new();
        let mut i: usize = 0;
        while i < self.cards.len()
            invariant
                i <= self.cards@.len(),
                out@.len() == i,
                forall|j: int|
                    0 <= j < i ==> card_view_of(#[trigger] out@[j], self.cards@[j], self.edges@),
            decreases self.cards@.len() - i,
        {
            let card = make_card(&self.cards[i], &self.edges);
            out.push(card);
            i = i + 1;
        }
        out
    }
}

/// Filtering distributes over push, one element at a time.
proof fn lemma_filter_push<A>(t: Seq<A>, x: A, p: spec_fn(A) -> bool)
    ensures
        p(x) ==> t.push(x).filter(p) == t.filter(p).push(x),
        !p(x) ==> t.push(x).filter(p) == t.filter(p),
{
    reveal(Seq::filter);
    assert(t.push(x).drop_last() =~= t);
    assert(t.push(x).last() == x);
}

/// Filtering the empty sequence gives the empty sequence.
proof fn lemma_filter_empty<A>(p: spec_fn(A) -> bool)
    ensures
        Seq::<A>::empty().filter(p) == Seq::<A>::empty(),
{
    reveal(Seq::filter);
}

/// A singleton filters to itself or to nothing.
proof fn lemma_filter_singleton<A>(x: A, p: spec_fn(A) -> bool)
    ensures
        p(x) ==> seq![x].filter(p) == seq![x],
        !p(x) ==> seq![x].filter(p) == Seq::<A>::empty(),
{
    lemma_filter_empty::<A>(p);
    lemma_filter_push(Seq::empty(), x, p);
    assert(Seq::<A>::empty().push(x) =~= seq![x]);
    assert(Seq::<A>::empty().push(x).filter(p) == seq![x].filter(p));
}

/// Records with pairwise distinct ids stay pairwise distinct under a
/// filter.
proof fn lemma_filter_cards_distinct(s: Seq<CardRec>, p: spec_fn(CardRec) -> bool)
    requires
        forall|i: int, j: int|
            0 <= i < j < s.len() ==> (#[trigger] s[i]).id != (#[trigger] s[j]).id,
    ensures
        forall|i: int, j: int|
            0 <= i < j < s.filter(p).len() ==> (#[trigger] s.filter(p)[i]).id != (
            #[trigger] s.filter(p)[j]).id,
    decreases s.len(),
{
    reveal(Seq::filter);
    if s.len() > 0 {
        let t = s.drop_last();
        let f = s.filter(p);
        lemma_filter_cards_distinct(t, p);
        if p(s.last()) {
            assert(f == t.filter(p).push(s.last()));
            assert forall|i: int, j: int|
                0 <= i < j < f.len() implies (#[trigger] f[i]).id != (#[trigger] f[j]).id by {
                if j < f.len() - 1 {
                    assert(t.filter(p)[i] == f[i] && t.filter(p)[j] == f[j]);
                } else {
                    assert(f[j] == s.last());
                    assert(f[i] == t.filter(p)[i]);
                    assert(t.filter(p).contains(t.filter(p)[i]));
                    t.lemma_filter_contains_rev(p, t.filter(p)[i]);
                    let k = choose|k: int| 0 <= k < t.len() && t[k] == f[i];
                    assert(s[k] == f[i]);
                    assert(s[k].id != s.last().id);
                }
            }
        }
    }
}

/// Edges with pairwise distinct ordered pairs stay pairwise distinct
/// under a filter.
proof fn lemma_filter_edges_distinct(s: Seq<Edge>, p: spec_fn(Edge) -> bool)
    requires
        forall|i: int, j: int|
            0 <= i < j < s.len() ==> !((#[trigger] s[i]).card_parent_id == (
            #[trigger] s[j]).card_parent_id && s[i].card_child_id == s[j].card_child_id),
    ensures
        forall|i: int, j: int|
            0 <= i < j < s.filter(p).len() ==> !((#[trigger] s.filter(p)[i]).card_parent_id == (
            #[trigger] s.filter(p)[j]).card_parent_id && s.filter(p)[i].card_child_id == s.filter(
                p,
            )[j].card_child_id),
    decreases s.len(),
{
    reveal(Seq::filter);
    if s.len() > 0 {
        let t = s.drop_last();
        let f = s.filter(p);
        lemma_filter_edges_distinct(t, p);
        if p(s.last()) {
            assert(f == t.filter(p).push(s.last()));
            assert forall|i: int, j: int|
                0 <= i < j < f.len() implies !((#[trigger] f[i]).card_parent_id == (
            #[trigger] f[j]).card_parent_id && f[i].card_child_id == f[j].card_child_id) by {
                if j < f.len() - 1 {
                    assert(t.filter(p)[i] == f[i] && t.filter(p)[j] == f[j]);
                } else {
                    assert(f[j] == s.last());
                    assert(f[i] == t.filter(p)[i]);
                    assert(t.filter(p).contains(t.filter(p)[i]));
                    t.lemma_filter_contains_rev(p, t.filter(p)[i]);
                    let k = choose|k: int| 0 <= k < t.len() && t[k] == f[i];
                    assert(s[k] == f[i]);
                }
            }
        }
    }
}

/// Element containment carries a pair over to the pair view.
proof fn lemma_edge_pairs_subset(es1: Seq<Edge>, es2: Seq<Edge>)
    requires
        forall|e: Edge| #[trigger] es1.contains(e) ==> es2.contains(e),
    ensures
        forall|pr: (i64, i64)| #[trigger] edge_pairs(es1).contains(pr) ==> edge_pairs(es2).contains(
            pr,
        ),
{
    assert forall|pr: (i64, i64)| #[trigger] edge_pairs(es1).contains(pr) implies edge_pairs(
        es2,
    ).contains(pr) by {
        let k = choose|k: int| 0 <= k < edge_pairs(es1).len() && edge_pairs(es1)[k] == pr;
        assert(es1.contains(es1[k]));
        assert(es2.contains(es1[k]));
        let m = choose|m: int| 0 <= m < es2.len() && es2[m] == es1[k];
        assert(edge_pairs(es2)[m] == pr);
    }
}

impl Store {
    /// Lists the cards whose rectangle intersects the query rectangle, in
    /// store order: exactly the stored records that pass the closed
    /// intersection test, projected like `list_all`.
    pub fn query_range(&self, q: &RangeParams) -> (r: Vec<Card>)
        requires
            self.wf(),
        ensures
            ({
                let kept = self.cards@.filter(|rec: CardRec| rec_in_range(rec, *q));
                &&& r@.len() == kept.len()
                &&& forall|i: int|
                    0 <= i < r@.len() ==> card_view_of(#[trigger] r@[i], kept[i], self.edges@)
            }),
    {
        let ghost pred = |rec: CardRec| rec_in_range(rec, *q);
        let mut out: Vec<Card> = Vec::new();
        let mut i: usize = 0;
        proof {
            lemma_filter_empty::<CardRec>(pred);
            assert(self.cards@.subrange(0, 0) =~= Seq::<CardRec>::empty());
        }
        while i < self.cards.len()
            invariant
                self.wf(),
                i <= self.cards@.len(),
                pred == (|rec: CardRec| rec_in_range(rec, *q)),
                out@.len() == self.cards@.subrange(0, i as int).filter(pred).len(),
                forall|j: int|
                    0 <= j < out@.len() ==> card_view_of(
                        #[trigger] out@[j],
                        self.cards@.subrange(0, i as int).filter(pred)[j],
                        self.edges@,
                    ),
            decreases self.cards@.len() - i,
        {
            let rec = &self.cards[i];
            proof {
                assert(rec_wf(self.cards@[i as int]));
            }
            let hit = crate::geometry::rect_intersects_range(rec.x, rec.y, rec.w, rec.h, q);
            proof {
                assert(self.cards@.subrange(0, i + 1).drop_last() =~= self.cards@.subrange(
                    0,
                    i as int,
                ));
                assert(self.cards@.subrange(0, i + 1) =~= self.cards@.subrange(0, i as int).push(
                    self.cards@[i as int],
                ));
                lemma_filter_push(self.cards@.subrange(0, i as int), self.cards@[i as int], pred);
            }
            if hit {
                let card = make_card(rec, &self.edges);
                out.push(card);
            }
            i = i + 1;
        }
        proof {
            assert(self.cards@.subrange(0, self.cards@.len() as int) =~= self.cards@);
        }
        out
    }

    /// Removes the card with this id, if present, and cascades: every edge
    /// that references it as parent or child goes with it, atomically.
    /// Removing an absent id is a no-op.
    pub fn delete(&mut self, id: i64)
        requires
            old(self).wf(),
        ensures
            final(self).wf(),
            final(self).next_card_id == old(self).next_card_id,
            final(self).cards@ == old(self).cards@.filter(|r: CardRec| r.id != id),
            final(self).edges@ == old(self).edges@.filter(
                |e: Edge| !(e.card_parent_id == id || e.card_child_id == id),
            ),
            !final(self).has_card(id),
            forall|k: int|
                0 <= k < final(self).edges@.len() ==> (#[trigger] final(self).edges@[k]).card_parent_id
                    != id && final(self).edges@[k].card_child_id != id,
    {
        let ghost cpred = |r: CardRec| r.id != id;
        let ghost epred = |e: Edge| !(e.card_parent_id == id || e.card_child_id == id);
        let ghost old_cards = self.cards@;
        let ghost old_edges = self.edges@;
        let mut i: usize = self.cards.len();
        proof {
            lemma_filter_empty::<CardRec>(cpred);
            assert(old_cards.subrange(i as int, old_cards.len() as int) =~= Seq::<
                CardRec,
            >::empty());
        }
        while i > 0
            invariant
                old_cards == old(self).cards@,
                i <= old_cards.len(),
                cpred == (|r: CardRec| r.id != id),
                self.edges@ == old(self).edges@,
                self.next_card_id == old(self).next_card_id,
                self.cards@ == old_cards.subrange(0, i as int) + old_cards.subrange(
                    i as int,
                    old_cards.len() as int,
                ).filter(cpred),
            decreases i,
        {
            i = i - 1;
            proof {
                assert(old_cards.subrange(i as int, old_cards.len() as int) =~= seq![
                    old_cards[i as int],
                ] + old_cards.subrange(i + 1, old_cards.len() as int));
                Seq::filter_distributes_over_add(
                    seq![old_cards[i as int]],
                    old_cards.subrange(i + 1, old_cards.len() as int),
                    cpred,
                );
                lemma_filter_singleton(old_cards[i as int], cpred);
            }
            if self.cards[i].id == id {
                self.cards.remove(i);
                proof {
                    assert(self.cards@ =~= old_cards.subrange(0, i as int)
                        + old_cards.subrange(i as int, old_cards.len() as int).filter(cpred));
                }
            } else {
                proof {
                    assert(self.cards@ =~= old_cards.subrange(0, i as int)
                        + old_cards.subrange(i as int, old_cards.len() as int).filter(cpred));
                }
            }
        }
        proof {
            assert(old_cards.subrange(0, 0) =~= Seq::<CardRec>::empty());
            assert(old_cards.subrange(0, old_cards.len() as int) =~= old_cards);
            assert(self.cards@ =~= old_cards.filter(cpred));
        }
        let mut k: usize = self.edges.len();
        proof {
            lemma_filter_empty::<Edge>(epred);
            assert(old_edges.subrange(k as int, old_edges.len() as int) =~= Seq::<Edge>::empty());
        }
        while k > 0
            invariant
                old_edges == old(self).edges@,
                k <= old_edges.len(),
                epred == (|e: Edge| !(e.card_parent_id == id || e.card_child_id == id)),
                self.cards@ == old(self).cards@.filter(|r: CardRec| r.id != id),
                self.next_card_id == old(self).next_card_id,
                self.edges@ == old_edges.subrange(0, k as int) + old_edges.subrange(
                    k as int,
                    old_edges.len() as int,
                ).filter(epred),
            decreases k,
        {
            k = k - 1;
            proof {
                assert(old_edges.subrange(k as int, old_edges.len() as int) =~= seq![
                    old_edges[k as int],
                ] + old_edges.subrange(k + 1, old_edges.len() as int));
                Seq::filter_distributes_over_add(
                    seq![old_edges[k as int]],
                    old_edges.subrange(k + 1, old_edges.len() as int),
                    epred,
                );
                lemma_filter_singleton(old_edges[k as int], epred);
            }
            if self.edges[k].card_parent_id == id || self.edges[k].card_child_id == id {
                self.edges.remove(k);
                proof {
                    assert(self.edges@ =~= old_edges.subrange(0, k as int)
                        + old_edges.subrange(k as int, old_edges.len() as int).filter(epred));
                }
            } else {
                proof {
                    assert(self.edges@ =~= old_edges.subrange(0, k as int)
                        + old_edges.subrange(k as int, old_edges.len() as int).filter(epred));
                }
            }
        }
        proof {
            assert(old_edges.subrange(0, 0) =~= Seq::<Edge>::empty());
            assert(old_edges.subrange(0, old_edges.len() as int) =~= old_edges);
            assert(self.edges@ =~= old_edges.filter(epred));
            self.lemma_wf_after_filter(*old(self), id);
            assert forall|k2: int|
                0 <= k2 < self.edges@.len() implies (#[trigger] self.edges@[k2]).card_parent_id
                != id && self.edges@[k2].card_child_id != id by {
                old_edges.lemma_filter_pred(epred, k2);
            }
            assert(!self.has_card(id)) by {
                if self.has_card(id) {
                    let i0 = choose|i0: int|
                        0 <= i0 < self.cards@.len() && self.cards@[i0].id == id;
                    old_cards.lemma_filter_pred(cpred, i0);
                }
            }
        }
    }

    /// Both halves of the store stay well formed when the cards are
    /// filtered by id-survival and the edges to exactly the edges not
    /// touching the removed id.
    proof fn lemma_wf_after_filter(self, old_s: Store, id: i64)
        requires
            old_s.wf(),
            self.cards@ == old_s.cards@.filter(|r: CardRec| r.id != id),
            self.edges@ == old_s.edges@.filter(
                |e: Edge| !(e.card_parent_id == id || e.card_child_id == id),
            ),
            self.next_card_id == old_s.next_card_id,
        ensures
            self.wf(),
    {
        let cpred = |r: CardRec| r.id != id;
        let epred = |e: Edge| !(e.card_parent_id == id || e.card_child_id == id);
        lemma_filter_cards_distinct(old_s.cards@, cpred);
        lemma_filter_edges_distinct(old_s.edges@, epred);
        assert forall|i: int| 0 <= i < self.cards@.len() implies rec_wf(#[trigger] self.cards@[i])
            && 1 <= self.cards@[i].id < self.next_card_id by {
            assert(self.cards@.contains(self.cards@[i]));
            old_s.cards@.lemma_filter_contains_rev(cpred, self.cards@[i]);
            let m = choose|m: int|
                0 <= m < old_s.cards@.len() && old_s.cards@[m] == self.cards@[i];
            assert(rec_wf(old_s.cards@[m]));
        }
        assert forall|k: int| 0 <= k < self.edges@.len() implies self.has_card(
            (#[trigger] self.edges@[k]).card_parent_id,
        ) && self.has_card(self.edges@[k].card_child_id) by {
            assert(self.edges@.contains(self.edges@[k]));
            old_s.edges@.lemma_filter_contains_rev(epred, self.edges@[k]);
            old_s.edges@.lemma_filter_pred(epred, k);
            let e = self.edges@[k];
            let m = choose|m: int| 0 <= m < old_s.edges@.len() && old_s.edges@[m] == e;
            assert(old_s.has_card(old_s.edges@[m].card_parent_id));
            let a = choose|a: int|
                0 <= a < old_s.cards@.len() && old_s.cards@[a].id == e.card_parent_id;
            assert(cpred(old_s.cards@[a]));
            old_s.cards@.lemma_filter_contains(cpred, a);
            let a2 = choose|a2: int|
                0 <= a2 < self.cards@.len() && self.cards@[a2] == old_s.cards@[a];
            assert(self.cards@[a2].id == e.card_parent_id);
            assert(old_s.has_card(old_s.edges@[m].card_child_id));
            let b = choose|b: int|
                0 <= b < old_s.cards@.len() && old_s.cards@[b].id == e.card_child_id;
            assert(cpred(old_s.cards@[b]));
            old_s.cards@.lemma_filter_contains(cpred, b);
            let b2 = choose|b2: int|
                0 <= b2 < self.cards@.len() && self.cards@[b2] == old_s.cards@[b];
            assert(self.cards@[b2].id == e.card_child_id);
        }
        assert(acyclic(edge_pairs(self.edges@))) by {
            assert forall|e: Edge| #[trigger] self.edges@.contains(e) implies old_s.edges@.contains(
                e,
            ) by {
                old_s.edges@.lemma_filter_contains_rev(epred, e);
            }
            lemma_edge_pairs_subset(self.edges@, old_s.edges@);
            crate::graph::lemma_acyclic_subset(edge_pairs(self.edges@), edge_pairs(old_s.edges@));
        }
    }

    /// Removes the edge with this ordered pair. Idempotent: removing an
    /// absent pair succeeds and changes nothing.
    pub fn disconnect(&mut self, parent_id: i64, child_id: i64)
        requires
            old(self).wf(),
        ensures
            final(self).wf(),
            final(self).cards@ == old(self).cards@,
            final(self).next_card_id == old(self).next_card_id,
            final(self).edges@ == old(self).edges@.filter(
                |e: Edge| !(e.card_parent_id == parent_id && e.card_child_id == child_id),
            ),
            !final(self).has_edge(parent_id, child_id),
    {
        let ghost epred = |e: Edge| !(e.card_parent_id == parent_id && e.card_child_id
            == child_id);
        let ghost old_edges = self.edges@;
        let mut k: usize = self.edges.len();
        proof {
            lemma_filter_empty::<Edge>(epred);
            assert(old_edges.subrange(k as int, old_edges.len() as int) =~= Seq::<Edge>::empty());
        }
        while k > 0
            invariant
                old_edges == old(self).edges@,
                k <= old_edges.len(),
                epred == (|e: Edge| !(e.card_parent_id == parent_id && e.card_child_id
                    == child_id)),
                self.cards@ == old(self).cards@,
                self.next_card_id == old(self).next_card_id,
                self.edges@ == old_edges.subrange(0, k as int) + old_edges.subrange(
                    k as int,
                    old_edges.len() as int,
                ).filter(epred),
            decreases k,
        {
            k = k - 1;
            proof {
                assert(old_edges.subrange(k as int, old_edges.len() as int) =~= seq![
                    old_edges[k as int],
                ] + old_edges.subrange(k + 1, old_edges.len() as int));
                Seq::filter_distributes_over_add(
                    seq![old_edges[k as int]],
                    old_edges.subrange(k + 1, old_edges.len() as int),
                    epred,
                );
                lemma_filter_singleton(old_edges[k as int], epred);
            }
            if self.edges[k].card_parent_id == parent_id && self.edges[k].card_child_id
                == child_id {
                self.edges.remove(k);
                proof {
                    assert(self.edges@ =~= old_edges.subrange(0, k as int)
                        + old_edges.subrange(k as int, old_edges.len() as int).filter(epred));
                }
            } else {
                proof {
                    assert(self.edges@ =~= old_edges.subrange(0, k as int)
                        + old_edges.subrange(k as int, old_edges.len() as int).filter(epred));
                }
            }
        }
        proof {
            assert(old_edges.subrange(0, 0) =~= Seq::<Edge>::empty());
            assert(old_edges.subrange(0, old_edges.len() as int) =~= old_edges);
            assert(self.edges@ =~= old_edges.filter(epred));
            self.lemma_wf_after_edge_filter(*old(self), epred);
            assert(!self.has_edge(parent_id, child_id)) by {
                if self.has_edge(parent_id, child_id) {
                    let k0 = choose|k0: int|
                        0 <= k0 < self.edges@.len() && self.edges@[k0].card_parent_id == parent_id
                            && self.edges@[k0].card_child_id == child_id;
                    old_edges.lemma_filter_pred(epred, k0);
                }
            }
        }
    }

    /// The store stays well formed when only edges are dropped.
    proof fn lemma_wf_after_edge_filter(self, old_s: Store, epred: spec_fn(Edge) -> bool)
        requires
            old_s.wf(),
            self.cards@ == old_s.cards@,
            self.edges@ == old_s.edges@.filter(epred),
            self.next_card_id == old_s.next_card_id,
        ensures
            self.wf(),
    {
        lemma_filter_edges_distinct(old_s.edges@, epred);
        assert forall|k: int| 0 <= k < self.edges@.len() implies self.has_card(
            (#[trigger] self.edges@[k]).card_parent_id,
        ) && self.has_card(self.edges@[k].card_child_id) by {
            assert(self.edges@.contains(self.edges@[k]));
            old_s.edges@.lemma_filter_contains_rev(epred, self.edges@[k]);
            let e = self.edges@[k];
            let m = choose|m: int| 0 <= m < old_s.edges@.len() && old_s.edges@[m] == e;
            assert(old_s.has_card(old_s.edges@[m].card_parent_id));
            assert(old_s.has_card(old_s.edges@[m].card_child_id));
        }
        assert(acyclic(edge_pairs(self.edges@))) by {
            assert forall|e: Edge| #[trigger] self.edges@.contains(e) implies old_s.edges@.contains(
                e,
            ) by {
                old_s.edges@.lemma_filter_contains_rev(epred, e);
            }
            lemma_edge_pairs_subset(self.edges@, old_s.edges@);
            crate::graph::lemma_acyclic_subset(edge_pairs(self.edges@), edge_pairs(old_s.edges@));
        }
    }
}

/// Copies one edge.
fn clone_edge(e: &Edge) -> (r: Edge)
    ensures
        r == *e,
{
    Edge {
        card_parent_id: e.card_parent_id,
        card_child_id: e.card_child_id,
        path: e.path.clone(),
        created_at: e.created_at,
        updated_at: e.updated_at,
    }
}

impl Store {
    /// Decides whether inserting the edge `parent -> child` would close a
    /// directed cycle: the pair is a self-loop, or the parent is already
    /// reachable from the child.
    pub fn would_create_cycle(&self, parent_id: i64, child_id: i64) -> (r: bool)
        requires
            self.wf(),
        ensures
            r == would_cycle(edge_pairs(self.edges@), parent_id, child_id),
    {
        crate::graph::can_reach(&self.edges, child_id, parent_id)
    }

    /// Inserts the edge `parent -> child` with the given label and fresh
    /// timestamps, and returns it. Refused with `CycleViolation` when the
    /// edge would close a cycle (self-loops always), with `DuplicateEdge`
    /// when the ordered pair already exists, and with `NotFound` when
    /// either endpoint card does not exist — checked in that order.
    pub fn connect(&mut self, parent_id: i64, child_id: i64, path: String, now: i64) -> (r: Result<
        Edge,
        StoreError,
    >)
        requires
            old(self).wf(),
        ensures
            final(self).wf(),
            final(self).cards@ == old(self).cards@,
            final(self).next_card_id == old(self).next_card_id,
            r is Ok <==> (!would_cycle(edge_pairs(old(self).edges@), parent_id, child_id) && !old(
                self,
            ).has_edge(parent_id, child_id) && old(self).has_card(parent_id) && old(self).has_card(
                child_id,
            )),
            match r {
                Ok(e) => {
                    &&& final(self).edges@.len() == old(self).edges@.len() + 1
                    &&& final(self).edges@.drop_last() == old(self).edges@
                    &&& final(self).edges@.last() == e
                    &&& e.card_parent_id == parent_id
                    &&& e.card_child_id == child_id
                    &&& e.path == path
                    &&& e.created_at == now
                    &&& e.updated_at == now
                },
                Err(err) => {
                    &&& *final(self) == *old(self)
                    &&& (err == StoreError::CycleViolation <==> would_cycle(
                        edge_pairs(old(self).edges@),
                        parent_id,
                        child_id,
                    ))
                    &&& (err == StoreError::DuplicateEdge <==> (!would_cycle(
                        edge_pairs(old(self).edges@),
                        parent_id,
                        child_id,
                    ) && old(self).has_edge(parent_id, child_id)))
                    &&& (err == StoreError::NotFound <==> (!would_cycle(
                        edge_pairs(old(self).edges@),
                        parent_id,
                        child_id,
                    ) && !old(self).has_edge(parent_id, child_id) && !(old(self).has_card(parent_id)
                        && old(self).has_card(child_id))))
                },
            },
    {
        if self.would_create_cycle(parent_id, child_id) {
            return Err(StoreError::CycleViolation);
        }
        match find_edge_index(&self.edges, parent_id, child_id) {
            Some(k) => {
                proof {
                    assert(self.edges@[k as int].card_parent_id == parent_id);
                }
                return Err(StoreError::DuplicateEdge);
            },
            None => {},
        }
        let pi = match find_card_index(&self.cards, parent_id) {
            None => {
                proof {
                    if self.has_card(parent_id) {
                        let i0 = choose|i0: int|
                            0 <= i0 < self.cards@.len() && self.cards@[i0].id == parent_id;
                        assert(self.cards@[i0].id == parent_id);
                    }
                }
                return Err(StoreError::NotFound);
            },
            Some(i) => i,
        };
        proof {
            assert(self.cards@[pi as int].id == parent_id);
        }
        let ci = match find_card_index(&self.cards, child_id) {
            None => {
                proof {
                    if self.has_card(child_id) {
                        let i0 = choose|i0: int|
                            0 <= i0 < self.cards@.len() && self.cards@[i0].id == child_id;
                        assert(self.cards@[i0].id == child_id);
                    }
                }
                return Err(StoreError::NotFound);
            },
            Some(i) => i,
        };
        proof {
            assert(self.cards@[ci as int].id == child_id);
        }
        let e_store = Edge {
            card_parent_id: parent_id,
            card_child_id: child_id,
            path,
            created_at: now,
            updated_at: now,
        };
        let e_ret = clone_edge(&e_store);
        let ghost old_edges = self.edges@;
        self.edges.push(e_store);
        proof {
            assert(self.edges@.drop_last() =~= old_edges);
            assert forall|k: int, l: int|
                0 <= k < l < self.edges@.len() implies !((#[trigger] self.edges@[k]).card_parent_id
                == (#[trigger] self.edges@[l]).card_parent_id && self.edges@[k].card_child_id
                == self.edges@[l].card_child_id) by {
                if l == self.edges@.len() - 1 {
                    assert(self.edges@[k] == old_edges[k]);
                    if old_edges[k].card_parent_id == parent_id && old_edges[k].card_child_id
                        == child_id {
                        assert(old(self).has_edge(parent_id, child_id));
                    }
                } else {
                    assert(self.edges@[k] == old_edges[k] && self.edges@[l] == old_edges[l]);
                }
            }
            assert forall|k: int|
                0 <= k < self.edges@.len() implies self.has_card(
                (#[trigger] self.edges@[k]).card_parent_id,
            ) && self.has_card(self.edges@[k].card_child_id) by {
                if k < self.edges@.len() - 1 {
                    assert(self.edges@[k] == old_edges[k]);
                    assert(old(self).edges@[k] == old_edges[k]);
                    assert(old(self).has_card(old_edges[k].card_parent_id));
                    let a = choose|a: int|
                        0 <= a < old(self).cards@.len() && old(self).cards@[a].id
                            == old_edges[k].card_parent_id;
                    assert(self.cards@[a].id == self.edges@[k].card_parent_id);
                    assert(old(self).has_card(old_edges[k].card_child_id));
                    let b = choose|b: int|
                        0 <= b < old(self).cards@.len() && old(self).cards@[b].id
                            == old_edges[k].card_child_id;
                    assert(self.cards@[b].id == self.edges@[k].card_child_id);
                } else {
                    assert(self.cards@[pi as int].id == parent_id);
                    assert(self.cards@[ci as int].id == child_id);
                }
            }
            assert(acyclic(edge_pairs(self.edges@))) by {
                assert(edge_pairs(self.edges@) =~= edge_pairs(old_edges).push(
                    (parent_id, child_id),
                ));
                crate::graph::lemma_acyclic_after_insert(
                    edge_pairs(old_edges),
                    parent_id,
                    child_id,
                );
            }
        }
        Ok(e_ret)
    }

    /// Rewrites the label of the edge with this ordered pair and refreshes
    /// its `updated_at`; cycle detection is not re-run, since a label
    /// change cannot introduce a cycle. `NotFound` when no such edge
    /// exists.
    pub fn update_label(&mut self, parent_id: i64, child_id: i64, path: String, now: i64) -> (r:
        Result<Edge, StoreError>)
        requires
            old(self).wf(),
        ensures
            final(self).wf(),
            final(self).cards@ == old(self).cards@,
            final(self).next_card_id == old(self).next_card_id,
            r is Ok <==> old(self).has_edge(parent_id, child_id),
            match r {
                Ok(e) => exists|k: int|
                    {
                        &&& 0 <= k < old(self).edges@.len()
                        &&& (#[trigger] old(self).edges@[k]).card_parent_id == parent_id
                        &&& old(self).edges@[k].card_child_id == child_id
                        &&& final(self).edges@ == old(self).edges@.update(k, e)
                        &&& e.card_parent_id == parent_id
                        &&& e.card_child_id == child_id
                        &&& e.path == path
                        &&& e.created_at == old(self).edges@[k].created_at
                        &&& e.updated_at == now
                    },
                Err(err) => err == StoreError::NotFound && *final(self) == *old(self),
            },
    {
        match find_edge_index(&self.edges, parent_id, child_id) {
            None => {
                proof {
                    if self.has_edge(parent_id, child_id) {
                        let k0 = choose|k0: int|
                            0 <= k0 < self.edges@.len() && self.edges@[k0].card_parent_id
                                == parent_id && self.edges@[k0].card_child_id == child_id;
                        assert(self.edges@[k0].card_parent_id == parent_id);
                    }
                }
                Err(StoreError::NotFound)
            },
            Some(k) => {
                proof {
                    assert(self.edges@[k as int].card_parent_id == parent_id);
                }
                let created = self.edges[k].created_at;
                let e_new = Edge {
                    card_parent_id: parent_id,
                    card_child_id: child_id,
                    path,
                    created_at: created,
                    updated_at: now,
                };
                let e_ret = clone_edge(&e_new);
                let ghost old_edges = self.edges@;
                self.edges.set(k, e_new);
                proof {
                    assert forall|a: int, l: int|
                        0 <= a < l < self.edges@.len() implies !((
                    #[trigger] self.edges@[a]).card_parent_id == (
                    #[trigger] self.edges@[l]).card_parent_id && self.edges@[a].card_child_id
                        == self.edges@[l].card_child_id) by {
                        assert(self.edges@[a].card_parent_id == old_edges[a].card_parent_id
                            && self.edges@[a].card_child_id == old_edges[a].card_child_id);
                        assert(self.edges@[l].card_parent_id == old_edges[l].card_parent_id
                            && self.edges@[l].card_child_id == old_edges[l].card_child_id);
                    }
                    assert forall|a: int|
                        0 <= a < self.edges@.len() implies self.has_card(
                        (#[trigger] self.edges@[a]).card_parent_id,
                    ) && self.has_card(self.edges@[a].card_child_id) by {
                        assert(old(self).edges@[a] == old_edges[a]);
                        assert(self.edges@[a].card_parent_id == old_edges[a].card_parent_id
                            && self.edges@[a].card_child_id == old_edges[a].card_child_id);
                        assert(old(self).has_card(old_edges[a].card_parent_id));
                        let w1 = choose|w1: int|
                            0 <= w1 < old(self).cards@.len() && old(self).cards@[w1].id
                                == old_edges[a].card_parent_id;
                        assert(self.cards@[w1].id == self.edges@[a].card_parent_id);
                        assert(old(self).has_card(old_edges[a].card_child_id));
                        let w2 = choose|w2: int|
                            0 <= w2 < old(self).cards@.len() && old(self).cards@[w2].id
                                == old_edges[a].card_child_id;
                        assert(self.cards@[w2].id == self.edges@[a].card_child_id);
                    }
                    assert(acyclic(edge_pairs(self.edges@))) by {
                        assert(edge_pairs(self.edges@) =~= edge_pairs(old_edges));
                    }
                    assert(old(self).edges@[k as int].card_parent_id == parent_id);
                }
                Ok(e_ret)
            },
        }
    }

    /// Overwrites the mutable fields of the card with id `params.id` and
    /// refreshes `updated_at`; `created_at` and the id are kept.
    /// `NotFound` when the id does not exist, `InvalidGeometry` when the
    /// new rectangle's far corner is not representable.
    pub fn update(&mut self, params: &CardParams, now: i64) -> (r: Result<Card, StoreError>)
        requires
            old(self).wf(),
        ensures
            final(self).wf(),
            final(self).edges@ == old(self).edges@,
            final(self).next_card_id == old(self).next_card_id,
            r is Ok <==> (old(self).has_card(params.id) && rect_sums_fit(
                params.position.x as int,
                params.position.y as int,
                params.size.x as int,
                params.size.y as int,
            )),
            match r {
                Ok(card) => exists|i: int|
                    {
                        &&& 0 <= i < old(self).cards@.len()
                        &&& (#[trigger] old(self).cards@[i]).id == params.id
                        &&& final(self).cards@.len() == old(self).cards@.len()
                        &&& (forall|j: int|
                            0 <= j < old(self).cards@.len() && j != i ==> final(self).cards@[j]
                                == old(self).cards@[j])
                        &&& rec_from_params(final(self).cards@[i], *params, params.id, now)
                        &&& final(self).cards@[i].created_at == old(self).cards@[i].created_at
                        &&& card_view_of(card, final(self).cards@[i], final(self).edges@)
                    },
                Err(e) => {
                    &&& *final(self) == *old(self)
                    &&& (e == StoreError::NotFound <==> !old(self).has_card(params.id))
                    &&& (e == StoreError::InvalidGeometry <==> (old(self).has_card(params.id)
                        && !rect_sums_fit(
                        params.position.x as int,
                        params.position.y as int,
                        params.size.x as int,
                        params.size.y as int,
                    )))
                },
            },
    {
        let idx = match find_card_index(&self.cards, params.id) {
            None => {
                proof {
                    if self.has_card(params.id) {
                        let i0 = choose|i0: int|
                            0 <= i0 < self.cards@.len() && self.cards@[i0].id == params.id;
                        assert(self.cards@[i0].id == params.id);
                    }
                }
                return Err(StoreError::NotFound);
            },
            Some(i) => i,
        };
        proof {
            assert(self.cards@[idx as int].id == params.id);
        }
        if !rect_corner_ok(params.position.x, params.position.y, params.size.x, params.size.y) {
            return Err(StoreError::InvalidGeometry);
        }
        let created = self.cards[idx].created_at;
        let rec = CardRec {
            id: params.id,
            x: params.position.x,
            y: params.position.y,
            w: params.size.x,
            h: params.size.y,
            title: params.title.clone(),
            contents: params.contents.clone(),
            tag_ids: dedup_ids(&params.tag_ids),
            created_at: created,
            updated_at: now,
        };
        let ghost old_cards = self.cards@;
        self.cards.set(idx, rec);
        let card = make_card(&self.cards[idx], &self.edges);
        proof {
            lemma_dedup_props(params.tag_ids@);
            assert forall|a: int, b: int|
                0 <= a < b < self.cards@.len() implies (#[trigger] self.cards@[a]).id != (
            #[trigger] self.cards@[b]).id by {
                assert(self.cards@[a].id == old_cards[a].id);
                assert(self.cards@[b].id == old_cards[b].id);
            }
            assert forall|a: int|
                0 <= a < self.cards@.len() implies rec_wf(#[trigger] self.cards@[a]) && 1
                <= self.cards@[a].id < self.next_card_id by {
                assert(rec_wf(old_cards[a]) && 1 <= old_cards[a].id < self.next_card_id);
                if a == idx as int {
                } else {
                    assert(self.cards@[a] == old_cards[a]);
                }
            }
            assert forall|k: int|
                0 <= k < self.edges@.len() implies self.has_card(
                (#[trigger] self.edges@[k]).card_parent_id,
            ) && self.has_card(self.edges@[k].card_child_id) by {
                assert(old(self).has_card(self.edges@[k].card_parent_id));
                let a = choose|a: int|
                    0 <= a < old_cards.len() && old_cards[a].id == self.edges@[k].card_parent_id;
                assert(self.cards@[a].id == self.edges@[k].card_parent_id);
                assert(old(self).has_card(self.edges@[k].card_child_id));
                let b = choose|b: int|
                    0 <= b < old_cards.len() && old_cards[b].id == self.edges@[k].card_child_id;
                assert(self.cards@[b].id == self.edges@[k].card_child_id);
            }
            assert(old(self).cards@[idx as int].id == params.id);
        }
        Ok(card)
    }

    /// Lists every edge, in store order, labels and timestamps included.
    pub fn list_edges(&self) -> (r: Vec<Edge>)
        requires
            self.wf(),
        ensures
            r@ == self.edges@,
    {
        let mut out: Vec<Edge> = Vec::new();
        let mut k: usize = 0;
        while k < self.edges.len()
            invariant
                k <= self.edges@.len(),
                out@ == self.edges@.subrange(0, k as int),
            decreases self.edges@.len() - k,
        {
            out.push(clone_edge(&self.edges[k]));
            assert(out@ =~= self.edges@.subrange(0, k + 1));
            k = k + 1;
        }
        assert(out@ =~= self.edges@);
        out
    }

    /// Lists every edge in its caller-facing shape: ordered pair and
    /// label.
    pub fn get_connectors(&self) -> (r: Vec<CardRelation>)
        requires
            self.wf(),
        ensures
            r@.len() == self.edges@.len(),
            forall|k: int| 0 <= k < r@.len() ==> #[trigger] r@[k] == rel_of(self.edges@[k]),
    {
        let mut out: Vec<CardRelation> = Vec::new();
        let mut k: usize = 0;
        while k < self.edges.len()
            invariant
                k <= self.edges@.len(),
                out@.len() == k,
                forall|j: int| 0 <= j < k ==> #[trigger] out@[j] == rel_of(self.edges@[j]),
            decreases self.edges@.len() - k,
        {
            let e = &self.edges[k];
            out.push(
                CardRelation {
                    card_parent_id: e.card_parent_id,
                    card_child_id: e.card_child_id,
                    path: e.path.clone(),
                },
            );
            k = k + 1;
        }
        out
    }
}

/// Decides whether the far corner `origin + size` is representable.
fn rect_corner_ok(x: i64, y: i64, w: i64, h: i64) -> (r: bool)
    ensures
        r == rect_sums_fit(x as int, y as int, w as int, h as int),
{
    let xw: i128 = x as i128 + w as i128;
    let yh: i128 = y as i128 + h as i128;
    i64::MIN as i128 <= xw && xw <= i64::MAX as i128 && i64::MIN as i128 <= yh && yh
        <= i64::MAX as i128
}

/// No edge of a well-formed store mentions an id the counter has not
/// handed out yet.
proof fn lemma_no_edge_mentions_fresh_id(s: Store, id: i64)
    requires
        s.wf(),
        id >= s.next_card_id,
    ensures
        forall|k: int|
            0 <= k < s.edges@.len() ==> (#[trigger] s.edges@[k]).card_parent_id != id
                && s.edges@[k].card_child_id != id,
{
    assert forall|k: int|
        0 <= k < s.edges@.len() implies (#[trigger] s.edges@[k]).card_parent_id != id
        && s.edges@[k].card_child_id != id by {
        assert(s.has_card(s.edges@[k].card_parent_id));
        assert(s.has_card(s.edges@[k].card_child_id));
        if s.edges@[k].card_parent_id == id {
            let i = choose|i: int| 0 <= i < s.cards@.len() && s.cards@[i].id == id;
            assert(s.cards@[i].id < s.next_card_id);
        }
        if s.edges@[k].card_child_id == id {
            let i = choose|i: int| 0 <= i < s.cards@.len() && s.cards@[i].id == id;
            assert(s.cards@[i].id < s.next_card_id);
        }
    }
}

/// A filter applied twice keeps exactly what one application keeps.
proof fn lemma_filter_idem<A>(s: Seq<A>, p: spec_fn(A) -> bool)
    ensures
        s.filter(p).filter(p) == s.filter(p),
    decreases s.len(),
{
    reveal(Seq::filter);
    if s.len() > 0 {
        let t = s.drop_last();
        lemma_filter_idem(t, p);
        if p(s.last()) {
            assert(s.filter(p) == t.filter(p).push(s.last()));
            lemma_filter_push(t.filter(p), s.last(), p);
        }
    }
}

/// The relation graph of every well-formed store is a DAG: no card
/// reaches itself along directed edges. Every operation of the store
/// keeps well-formedness, so any sequence of connects leaves no cycle.
pub proof fn lemma_store_acyclic(s: Store)
    requires
        s.wf(),
    ensures
        forall|a: i64| !crate::graph::reaches(edge_pairs(s.edges@), a, a),
{
}

/// Range-query correctness: a stored record stands among the records a
/// range query keeps iff its rectangle intersects the query rectangle;
/// and a query disjoint from every card keeps nothing.
pub proof fn lemma_query_range_exact(s: Store, q: RangeParams)
    requires
        s.wf(),
    ensures
        forall|i: int|
            0 <= i < s.cards@.len() ==> (s.cards@.filter(|rec: CardRec| rec_in_range(rec, q))
                .contains(#[trigger] s.cards@[i]) <==> rec_in_range(s.cards@[i], q)),
        (forall|i: int| 0 <= i < s.cards@.len() ==> !rec_in_range(#[trigger] s.cards@[i], q))
            ==> s.cards@.filter(|rec: CardRec| rec_in_range(rec, q)).len() == 0,
{
    let p = |rec: CardRec| rec_in_range(rec, q);
    assert forall|i: int|
        0 <= i < s.cards@.len() implies (s.cards@.filter(p).contains(#[trigger] s.cards@[i])
        <==> rec_in_range(s.cards@[i], q)) by {
        if rec_in_range(s.cards@[i], q) {
            s.cards@.lemma_filter_contains(p, i);
        }
        if s.cards@.filter(p).contains(s.cards@[i]) {
            let j = choose|j: int|
                0 <= j < s.cards@.filter(p).len() && s.cards@.filter(p)[j] == s.cards@[i];
            s.cards@.lemma_filter_pred(p, j);
        }
    }
    if forall|i: int| 0 <= i < s.cards@.len() ==> !rec_in_range(#[trigger] s.cards@[i], q) {
        assert(s.cards@.all(|rec: CardRec| !p(rec)));
        s.cards@.lemma_all_neg_filter_empty(p);
    }
}

/// Idempotent disconnect: removing the same ordered pair a second time
/// keeps exactly the edges the first removal kept — and the operation
/// itself never fails.
pub proof fn lemma_disconnect_idempotent(es: Seq<Edge>, parent_id: i64, child_id: i64)
    ensures
        ({
            let p = |e: Edge| !(e.card_parent_id == parent_id && e.card_child_id == child_id);
            es.filter(p).filter(p) == es.filter(p)
        }),
{
    let p = |e: Edge| !(e.card_parent_id == parent_id && e.card_child_id == child_id);
    lemma_filter_idem(es, p);
}

/// An id that no edge lists as its child has no derived parent.
proof fn lemma_fresh_first_parent(edges: Seq<Edge>, id: i64, i: int)
    requires
        forall|k: int| 0 <= k < edges.len() ==> (#[trigger] edges[k]).card_child_id != id,
    ensures
        first_parent_from(edges, id, i) is None,
    decreases edges.len() - i,
{
    if 0 <= i < edges.len() {
        lemma_fresh_first_parent(edges, id, i + 1);
    }
}

} // verus!
