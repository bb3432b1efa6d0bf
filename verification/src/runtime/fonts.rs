//! Font enumeration and lookup: the faces that were found on the host, and which family a name asks
//! for.
use crate::strings::str_eq;
use vstd::prelude::*;
use vstd::string::*;

verus! {

/// A family to look up: a generic one, or one with a name.
#[derive(Debug, Clone, PartialEq, Eq)]
pub enum FontFamily {
    Serif,
    SansSerif,
    Monospace,
    Cursive,
    Fantasy,
    Name(String),
}

/// The mathematical form of a family.
pub enum FamilyView {
    Serif,
    SansSerif,
    Monospace,
    Cursive,
    Fantasy,
    Name(Seq<char>),
}

impl View for FontFamily {
    type V = FamilyView;

    open spec fn view(&self) -> FamilyView {
        match *self {
            FontFamily::Serif => FamilyView::Serif,
            FontFamily::SansSerif => FamilyView::SansSerif,
            FontFamily::Monospace => FamilyView::Monospace,
            FontFamily::Cursive => FamilyView::Cursive,
            FontFamily::Fantasy => FamilyView::Fantasy,
            FontFamily::Name(n) => FamilyView::Name(n@),
        }
    }
}

/// The family that a name asks for.
pub open spec fn family_of(name: Seq<char>) -> FamilyView {
    if name == "serif"@ {
        FamilyView::Serif
    } else if name == "sans-serif"@ {
        FamilyView::SansSerif
    } else if name == "monospace"@ {
        FamilyView::Monospace
    } else if name == "cursive"@ {
        FamilyView::Cursive
    } else if name == "fantasy"@ {
        FamilyView::Fantasy
    } else {
        FamilyView::Name(name)
    }
}

/// The family that a name (e.g. `"sans-serif"` or a specific family name) asks for.
pub fn family_query(name: &str) -> (f: FontFamily)
    ensures
        f@ == family_of(name@),
{
    if str_eq(name, "serif") {
        FontFamily::Serif
    } else if str_eq(name, "sans-serif") {
        FontFamily::SansSerif
    } else if str_eq(name, "monospace") {
        FontFamily::Monospace
    } else if str_eq(name, "cursive") {
        FontFamily::Cursive
    } else if str_eq(name, "fantasy") {
        FontFamily::Fantasy
    } else {
        FontFamily::Name(String::from_str(name))
    }
}

/// A face that was found: its family names, and whether an on-disk file backs it.
#[derive(Debug, Clone, PartialEq, Eq)]
pub struct FontFace {
    pub families: Vec<String>,
    pub file_backed: bool,
}

/// The mathematical form of a face.
pub struct FaceView {
    pub families: Seq<Seq<char>>,
    pub file_backed: bool,
}

impl DeepView for FontFace {
    type V = FaceView;

    open spec fn deep_view(&self) -> FaceView {
        FaceView { families: self.families.deep_view(), file_backed: self.file_backed }
    }
}

/// The first family name of every face that has one, in order.
pub open spec fn first_families(faces: Seq<FaceView>) -> Seq<Seq<char>>
    decreases faces.len(),
{
    if faces.len() == 0 {
        Seq::empty()
    } else {
        let front = first_families(faces.drop_last());
        if faces.last().families.len() > 0 {
            front.push(faces.last().families[0])
        } else {
            front
        }
    }
}

/// Returns the family names for every face, in enumeration order (may contain duplicates across
/// weights/styles of the same family).
pub fn family_names(faces: &Vec<FontFace>) -> (r: Vec<String>)
    ensures
        r.deep_view() == first_families(faces.deep_view()),
{
    let ghost all = faces.deep_view();
    let mut r: Vec<String> = Vec::new();
    let mut i: usize = 0;
    assert(all.take(0) =~= Seq::<FaceView>::empty());
    assert(r.deep_view() =~= Seq::<Seq<char>>::empty());
    while i < faces.len()
        invariant
            0 <= i <= faces@.len(),
            all == faces.deep_view(),
            r.deep_view() == first_families(all.take(i as int)),
        decreases faces@.len() - i,
    {
        assert(all.take(i + 1).drop_last() =~= all.take(i as int));
        assert(all.take(i + 1).last() == faces@[i as int].deep_view());
        let names = &faces[i].families;
        if names.len() > 0 {
            let ghost was = r.deep_view();
            r.push(String::from_str(names[0].as_str()));
            assert(r.deep_view() =~= was.push(names@[0]@));
            assert(names.deep_view()[0] == names@[0]@);
        }
        i = i + 1;
    }
    assert(all.take(all.len() as int) =~= all);
    r
}

/// Returns whether a place refers to a face backed by an on-disk file, as opposed to
/// embedded/in-memory font data (relevant for cache invalidation when a system font file changes on
/// disk).
pub fn is_file_backed(faces: &Vec<FontFace>, place: usize) -> (b: bool)
    ensures
        b == (place < faces@.len() && faces@[place as int].file_backed),
{
    place < faces.len() && faces[place].file_backed
}

} // verus!
