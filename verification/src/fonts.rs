use vstd::prelude::*;

use ab_glyph::FontVec;

verus! {

#[verifier::external_type_specification]
#[verifier::external_body]
pub struct ExFontVec(ab_glyph::FontVec);

/// Whether `ab_glyph` accepts `data` as a font (face 0 of the file).
pub uninterp spec fn font_parses(data: Seq<u8>) -> bool;

/// Parses font file bytes with `ab_glyph::FontVec::try_from_vec`, which
/// copies the bytes into an owned face and fails on anything that is not a
/// readable TrueType/OpenType font. Stated: the result is present exactly
/// when `font_parses` holds of the bytes, a property of the bytes alone.
#[verifier::external_body]
fn load_font(bytes: &[u8]) -> (r: Option<FontVec>)
    ensures
        r is Some == font_parses(bytes@),
{
    FontVec::try_from_vec(bytes.to_vec()).ok()
}

/// The four weights of the embedded font family.
#[derive(Clone, Copy, Debug, PartialEq, Eq, Structural)]
pub enum WeightClass {
    Light,
    Regular,
    Bold,
    Black,
}

/// Which face renders text of a given weight: up to 300 light, up to 500
/// regular, up to 700 bold, heavier black.
pub open spec fn weight_class(weight: u16) -> WeightClass {
    if weight <= 300 {
        WeightClass::Light
    } else if weight <= 500 {
        WeightClass::Regular
    } else if weight <= 700 {
        WeightClass::Bold
    } else {
        WeightClass::Black
    }
}

/// The static-weight faces text is rendered with; a face that failed to load
/// is absent.
pub struct FontManager {
    pub light: Option<FontVec>,
    pub regular: Option<FontVec>,
    pub bold: Option<FontVec>,
    pub black: Option<FontVec>,
}

impl FontManager {
    /// The face loaded for a weight class.
    pub open spec fn face(&self, class: WeightClass) -> Option<FontVec> {
        match class {
            WeightClass::Light => self.light,
            WeightClass::Regular => self.regular,
            WeightClass::Bold => self.bold,
            WeightClass::Black => self.black,
        }
    }

    /// Loads the four faces from their font files.
    pub fn load(light: &[u8], regular: &[u8], bold: &[u8], black: &[u8]) -> (r: Self)
        ensures
            r.light is Some == font_parses(light@),
            r.regular is Some == font_parses(regular@),
            r.bold is Some == font_parses(bold@),
            r.black is Some == font_parses(black@),
    {
        FontManager {
            light: load_font(light),
            regular: load_font(regular),
            bold: load_font(bold),
            black: load_font(black),
        }
    }

    /// The face for `weight` (see `weight_class`), falling back to the
    /// regular face when that one is missing.
    pub fn font_for_weight(&self, weight: u16) -> (r: Option<&FontVec>)
        ensures
            self.face(weight_class(weight)) is Some ==> r is Some && *r.unwrap() == self.face(
                weight_class(weight),
            ).unwrap(),
            self.face(weight_class(weight)) is None ==> match self.regular {
                Some(f) => r is Some && *r.unwrap() == f,
                None => r is None,
            },
            weight <= 300 && self.light is Some ==> r is Some && *r.unwrap()
                == self.light.unwrap(),
            300 < weight <= 500 && self.regular is Some ==> r is Some && *r.unwrap()
                == self.regular.unwrap(),
            500 < weight <= 700 && self.bold is Some ==> r is Some && *r.unwrap()
                == self.bold.unwrap(),
            700 < weight && self.black is Some ==> r is Some && *r.unwrap()
                == self.black.unwrap(),
            r is None ==> self.regular is None,
    {
        let candidate = if weight <= 300 {
            &self.light
        } else if weight <= 500 {
            &self.regular
        } else if weight <= 700 {
            &self.bold
        } else {
            &self.black
        };
        match candidate {
            Some(f) => Some(f),
            None => match &self.regular {
                Some(f) => Some(f),
                None => None,
            },
        }
    }
}

/// The weight ranges of the four faces: 100-300 light, 301-500 regular,
/// 501-700 bold, above 700 black; heavier never picks a lighter face.
pub proof fn lemma_weight_classes(weight: u16, heavier: u16)
    ensures
        weight <= 300 ==> weight_class(weight) == WeightClass::Light,
        300 < weight <= 500 ==> weight_class(weight) == WeightClass::Regular,
        500 < weight <= 700 ==> weight_class(weight) == WeightClass::Bold,
        700 < weight ==> weight_class(weight) == WeightClass::Black,
        weight <= heavier ==> class_rank(weight_class(weight)) <= class_rank(weight_class(heavier)),
{
}

/// The order of the faces from lightest to heaviest.
pub open spec fn class_rank(c: WeightClass) -> int {
    match c {
        WeightClass::Light => 0,
        WeightClass::Regular => 1,
        WeightClass::Bold => 2,
        WeightClass::Black => 3,
    }
}

} // verus!
