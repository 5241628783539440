//! The records that flow from a card list to the generated output: what the
//! user asked for ([`CardRequest`]) and what a collection can print
//! ([`Printing`]).
use vstd::prelude::*;

verus! {

/// The user's intent for one copy of a card: which card, and optionally which
/// variant, collection and pack to prefer.
#[derive(Clone, Debug, PartialEq, Eq)]
pub struct CardRequest {
    pub title: String,
    pub code: String,
    pub variant: Option<String>,
    pub collection: Option<String>,
    pub pack_code: Option<String>,
}

/// An extra image of a printing beside its front (such as a back side).
#[derive(Clone, Debug, PartialEq, Eq)]
pub struct PrintingPart {
    pub name: String,
    pub image_key: String,
}

/// One physical representation of a card held by a collection.
#[derive(Clone, Debug, PartialEq, Eq)]
pub struct Printing {
    pub card_title: String,
    pub card_code: String,
    pub variant: String,
    pub image_key: String,
    pub parts: Vec<PrintingPart>,
    pub collection: String,
    pub side: String,
    pub pack_code: String,
    pub date_release: Option<String>,
}

/// The mathematical value of a [`PrintingPart`].
pub struct PartView {
    pub name: Seq<char>,
    pub image_key: Seq<char>,
}

/// The mathematical value of a [`Printing`].
pub struct PrintingView {
    pub card_title: Seq<char>,
    pub card_code: Seq<char>,
    pub variant: Seq<char>,
    pub image_key: Seq<char>,
    pub parts: Seq<PartView>,
    pub collection: Seq<char>,
    pub side: Seq<char>,
    pub pack_code: Seq<char>,
    pub date_release: Option<Seq<char>>,
}

/// The mathematical value of a [`CardRequest`].
pub struct RequestView {
    pub title: Seq<char>,
    pub code: Seq<char>,
    pub variant: Option<Seq<char>>,
    pub collection: Option<Seq<char>>,
    pub pack_code: Option<Seq<char>>,
}

impl View for PrintingPart {
    type V = PartView;

    open spec fn view(&self) -> PartView {
        PartView { name: self.name@, image_key: self.image_key@ }
    }
}

impl View for Printing {
    type V = PrintingView;

    open spec fn view(&self) -> PrintingView {
        PrintingView {
            card_title: self.card_title@,
            card_code: self.card_code@,
            variant: self.variant@,
            image_key: self.image_key@,
            parts: self.parts@.map_values(|p: PrintingPart| p@),
            collection: self.collection@,
            side: self.side@,
            pack_code: self.pack_code@,
            date_release: opt_view(self.date_release),
        }
    }
}

impl View for CardRequest {
    type V = RequestView;

    open spec fn view(&self) -> RequestView {
        RequestView {
            title: self.title@,
            code: self.code@,
            variant: opt_view(self.variant),
            collection: opt_view(self.collection),
            pack_code: opt_view(self.pack_code),
        }
    }
}

pub open spec fn opt_view(o: Option<String>) -> Option<Seq<char>> {
    match o {
        Some(s) => Some(s@),
        None => None,
    }
}

pub fn clone_opt(o: &Option<String>) -> (r: Option<String>)
    ensures
        r == *o,
{
    match o {
        Some(s) => Some(s.clone()),
        None => None,
    }
}

impl PrintingPart {
    pub fn duplicate(&self) -> (r: Self)
        ensures
            r == *self,
    {
        PrintingPart { name: self.name.clone(), image_key: self.image_key.clone() }
    }
}

pub fn duplicate_parts(v: &Vec<PrintingPart>) -> (r: Vec<PrintingPart>)
    ensures
        r@ == v@,
{
    let mut r: Vec<PrintingPart> = Vec::new();
    let mut i: usize = 0;
    while i < v.len()
        invariant
            i <= v@.len(),
            r@ == v@.subrange(0, i as int),
        decreases v.len() - i,
    {
        r.push(v[i].duplicate());
        i = i + 1;
    }
    assert(r@ =~= v@);
    r
}

impl Printing {
    pub fn duplicate(&self) -> (r: Self)
        ensures
            r@ == self@,
    {
        Printing {
            card_title: self.card_title.clone(),
            card_code: self.card_code.clone(),
            variant: self.variant.clone(),
            image_key: self.image_key.clone(),
            parts: duplicate_parts(&self.parts),
            collection: self.collection.clone(),
            side: self.side.clone(),
            pack_code: self.pack_code.clone(),
            date_release: clone_opt(&self.date_release),
        }
    }
}

impl CardRequest {
    pub fn duplicate(&self) -> (r: Self)
        ensures
            r == *self,
    {
        CardRequest {
            title: self.title.clone(),
            code: self.code.clone(),
            variant: clone_opt(&self.variant),
            collection: clone_opt(&self.collection),
            pack_code: clone_opt(&self.pack_code),
        }
    }
}

pub open spec fn printings_view(v: Seq<Printing>) -> Seq<PrintingView> {
    v.map_values(|p: Printing| p@)
}

pub fn duplicate_printings(v: &Vec<Printing>) -> (r: Vec<Printing>)
    ensures
        printings_view(r@) == printings_view(v@),
{
    let mut r: Vec<Printing> = Vec::new();
    let mut i: usize = 0;
    while i < v.len()
        invariant
            i <= v@.len(),
            r@.len() == i,
            forall|j: int| 0 <= j < i ==> (#[trigger] r@[j])@ == v@[j]@,
        decreases v.len() - i,
    {
        r.push(v[i].duplicate());
        i = i + 1;
    }
    assert(printings_view(r@) =~= printings_view(v@));
    r
}

} // verus!
