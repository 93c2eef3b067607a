//! The annotated program that the analysis produces.

use vstd::prelude::*;
use crate::analyzer::types::{Sig, Signature};
use crate::lexer::Span;

verus! {

/// What an item is. A word and a quotation carry their signature.
#[derive(Debug)]
pub enum ItemKind<'src> {
    Integer(i64),
    String(&'src str),
    Word(Signature, &'src str),
    Quotation(Signature, Vec<Item<'src>>),
}

/// A node of the annotated program with the place where it stands in the source.
#[derive(Debug)]
pub struct Item<'src> {
    pub kind: ItemKind<'src>,
    pub span: Span,
}

/// The mathematical model of an [`ItemKind`].
pub enum ItemKindModel {
    Integer(i64),
    String(Seq<char>),
    Word(Sig, Seq<char>),
    Quotation(Sig, Seq<ItemModel>),
}

/// The mathematical model of an [`Item`].
pub struct ItemModel {
    pub kind: ItemKindModel,
    pub span: Span,
}

impl<'src> Item<'src> {
    /// The value that this item stands for in specifications.
    pub open spec fn model(&self) -> ItemModel
        decreases self,
    {
        ItemModel {
            kind: match self.kind {
                ItemKind::Integer(value) => ItemKindModel::Integer(value),
                ItemKind::String(raw) => ItemKindModel::String(raw@),
                ItemKind::Word(signature, name) => ItemKindModel::Word(signature.model(), name@),
                ItemKind::Quotation(signature, items) => ItemKindModel::Quotation(
                    signature.model(),
                    Seq::new(
                        items@.len(),
                        |i: int|
                            if 0 <= i < items@.len() {
                                items@[i].model()
                            } else {
                                ItemModel {
                                    kind: ItemKindModel::Integer(0),
                                    span: Span { start: 0, end: 0 },
                                }
                            },
                    ),
                ),
            },
            span: self.span,
        }
    }

    pub fn new(kind: ItemKind<'src>, span: Span) -> (item: Self)
        ensures
            item.kind == kind,
            item.span == span,
    {
        Self { kind, span }
    }

    pub fn parts(self) -> (parts: (ItemKind<'src>, Span))
        ensures
            parts.0 == self.kind,
            parts.1 == self.span,
    {
        (self.kind, self.span)
    }

    pub fn kind(&self) -> (kind: &ItemKind<'src>)
        ensures
            *kind == self.kind,
    {
        &self.kind
    }

    pub fn span(&self) -> (span: Span)
        ensures
            span == self.span,
    {
        self.span
    }
}

/// The models of the items of `items`, in the same order.
pub open spec fn item_models(items: Seq<Item>) -> Seq<ItemModel> {
    Seq::new(items.len(), |i: int| items[i].model())
}

/// A quotation item stands for the quotation of the models of its items.
pub proof fn lemma_quotation_item_model(item: Item)
    requires
        item.kind is Quotation,
    ensures
        item.model().kind == ItemKindModel::Quotation(
            item.kind->Quotation_0.model(),
            item_models(item.kind->Quotation_1@),
        ),
{
    assert(item.model().kind->Quotation_1 =~= item_models(item.kind->Quotation_1@));
}


impl<'src> Clone for Item<'src> {
    /// A deep copy.
    fn clone(&self) -> (copy: Item<'src>)
        ensures
            copy.model() == self.model(),
        decreases self, 0nat,
    {
        let kind = match &self.kind {
            ItemKind::Integer(value) => ItemKind::Integer(*value),
            ItemKind::String(raw) => ItemKind::String(*raw),
            ItemKind::Word(signature, name) => ItemKind::Word(signature.clone(), *name),
            ItemKind::Quotation(signature, items) => {
                proof {
                    lemma_quotation_item_model(*self);
                }
                ItemKind::Quotation(signature.clone(), clone_items(items))
            },
        };
        let copy = Item { kind, span: self.span };
        proof {
            if copy.kind is Quotation {
                lemma_quotation_item_model(copy);
            }
        }
        copy
    }
}

impl<'src> Clone for ItemKind<'src> {
    /// A deep copy.
    fn clone(&self) -> (copy: ItemKind<'src>)
        ensures
            (Item { kind: copy, span: Span { start: 0, end: 0 } }).model() == (Item {
                kind: *self,
                span: Span { start: 0, end: 0 },
            }).model(),
    {
        copy_kind(self)
    }
}

/// A deep copy of what an item is.
fn copy_kind<'src>(kind: &ItemKind<'src>) -> (copy: ItemKind<'src>)
    ensures
        (Item { kind: copy, span: Span { start: 0, end: 0 } }).model() == (Item {
            kind: *kind,
            span: Span { start: 0, end: 0 },
        }).model(),
{
    let ghost whole = Item { kind: *kind, span: Span { start: 0, end: 0 } };
    let copy = match kind {
        ItemKind::Integer(value) => ItemKind::Integer(*value),
        ItemKind::String(raw) => ItemKind::String(*raw),
        ItemKind::Word(signature, name) => ItemKind::Word(signature.clone(), *name),
        ItemKind::Quotation(signature, items) => {
            proof {
                lemma_quotation_item_model(whole);
            }
            ItemKind::Quotation(signature.clone(), clone_items(items))
        },
    };
    proof {
        let made = Item { kind: copy, span: Span { start: 0, end: 0 } };
        if copy is Quotation {
            lemma_quotation_item_model(made);
        }
    }
    copy
}

/// Deep copies of `items`, in the same order.
pub fn clone_items<'src>(items: &Vec<Item<'src>>) -> (copies: Vec<Item<'src>>)
    ensures
        item_models(copies@) == item_models(items@),
    decreases items, 1nat,
{
    let mut copies: Vec<Item<'src>> = Vec::new();
    let mut i: usize = 0;
    while i < items.len()
        invariant
            i <= items@.len(),
            copies@.len() == i,
            forall|k: int| 0 <= k < i ==> (#[trigger] copies@[k]).model() == items@[k].model(),
        decreases items@.len() - i,
    {
        let copy = items[i].clone();
        copies.push(copy);
        i = i + 1;
    }
    assert(item_models(copies@) =~= item_models(items@));
    copies
}

} // verus!
