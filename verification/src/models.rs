//! The data model: cards, relation edges, tags, and the parameter shapes
//! that mutations take.

use vstd::prelude::*;

use crate::geometry::Dimmension;

verus! {

/// A card as callers see it: identity, rectangle, text content, derived
/// parent link, tag memberships, and timestamps (whole seconds).
#[derive(Debug)]
pub struct Card {
    pub id: i64,
    pub position: Dimmension,
    pub size: Dimmension,
    pub title: String,
    pub contents: String,
    pub parent_id: Option<i64>,
    pub tag_ids: Vec<i64>,
    pub created_at: i64,
    pub updated_at: i64,
}

/// The caller-supplied fields of a card mutation. `id` is ignored on
/// create; `parent_id` is derived data and ignored by the store.
#[derive(Debug)]
pub struct CardParams {
    pub id: i64,
    pub position: Dimmension,
    pub size: Dimmension,
    pub title: String,
    pub contents: String,
    pub parent_id: Option<i64>,
    pub tag_ids: Vec<i64>,
}

/// A card record as the store owns it: the rectangle held as origin and
/// signed size, tags deduplicated.
#[derive(Debug)]
pub struct CardRec {
    pub id: i64,
    pub x: i64,
    pub y: i64,
    pub w: i64,
    pub h: i64,
    pub title: String,
    pub contents: String,
    pub tag_ids: Vec<i64>,
    pub created_at: i64,
    pub updated_at: i64,
}

/// A directed labeled relation from a parent card to a child card.
/// `path` is the edge's free-text label.
#[derive(Debug)]
pub struct Edge {
    pub card_parent_id: i64,
    pub card_child_id: i64,
    pub path: String,
    pub created_at: i64,
    pub updated_at: i64,
}

/// The wire shape of an edge mutation: the ordered pair and the label.
#[derive(Debug)]
pub struct CardCardRow {
    pub card_parent_id: i64,
    pub card_child_id: i64,
    pub path: String,
}

/// An edge as listed back to callers: the ordered pair and the label.
#[derive(Debug)]
pub struct CardRelation {
    pub card_parent_id: i64,
    pub card_child_id: i64,
    pub path: String,
}

/// A tag label.
#[derive(Debug)]
pub struct Tag {
    pub id: i32,
    pub name: String,
}

/// A stored tag record.
#[derive(Debug)]
pub struct TagRow {
    pub id: i32,
    pub name: String,
}

} // verus!
