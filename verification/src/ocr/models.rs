//! Recognized words and their mathematical model.
use vstd::prelude::*;

use crate::geometry::Rect;

verus! {

#[derive(Debug, Clone)]
pub struct OcrWord {
    /// Recognized word text.
    pub text: String,
    /// Confidence score as the engine reported it: its number text, `-1`
    /// when the engine gave none or a field that is not a number.
    pub confidence: String,
    /// Bounding box in **image pixel coordinates** (exact fractions of a
    /// pixel, see [`Rect`]).
    pub bbox: Rect,
    /// Position in original OCR output order.
    pub order: usize,
}

/// The value a word stands for: its text and confidence as character
/// sequences, its box and its output position.
pub struct WordModel {
    pub text: Seq<char>,
    pub confidence: Seq<char>,
    pub bbox: Rect,
    pub order: int,
}

impl View for OcrWord {
    type V = WordModel;

    open spec fn view(&self) -> WordModel {
        WordModel {
            text: self.text@,
            confidence: self.confidence@,
            bbox: self.bbox,
            order: self.order as int,
        }
    }
}

#[derive(Debug, Clone)]
pub struct OcrResult {
    pub words: Vec<OcrWord>,
}

impl View for OcrResult {
    type V = Seq<WordModel>;

    open spec fn view(&self) -> Seq<WordModel> {
        self.words@.map_values(|w: OcrWord| w@)
    }
}

} // verus!
