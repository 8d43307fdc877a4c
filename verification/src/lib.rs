//! Verified core of the ProPresenter file-format library.
use vstd::prelude::*;

pub mod text;
pub mod percent;
pub mod document;
pub mod rtf;
pub mod presentation_spec;
pub mod naming;
pub mod native_url;
pub mod macros;
pub mod resolution;
pub mod package;
pub mod package_model;
pub mod package_compare;
pub mod presentation_graph;
pub mod parser;
pub mod render;
pub mod native_zip;
pub mod media;
pub mod playlist;
pub mod document_compare;
pub mod search;
pub mod member_compare;
pub mod comparison;
pub mod package_plan;
pub mod package_read;

verus! {

/// The detected or user-assigned slide type of a service item.
#[derive(Debug, Clone, Copy, PartialEq, Eq)]
pub enum SlideType {
    /// Generic text slides.
    Text,
    /// Bible verse slides.
    Scripture,
    /// Song lyrics with verse and chorus markers.
    Lyrics,
    /// Nametags and sermon titles.
    Title,
    /// Image-based slides.
    Graphic,
}

impl Default for SlideType {
    fn default() -> (t: SlideType)
        ensures
            t == SlideType::Text,
    {
        SlideType::Text
    }
}

impl SlideType {
    /// The human-readable name of this slide type.
    pub fn name(self) -> (s: &'static str)
        ensures
            s@ == match self {
                SlideType::Scripture => "Scripture"@,
                SlideType::Lyrics => "Lyrics"@,
                SlideType::Title => "Title"@,
                SlideType::Graphic => "Graphic"@,
                SlideType::Text => "Text"@,
            },
    {
        match self {
            SlideType::Scripture => "Scripture",
            SlideType::Lyrics => "Lyrics",
            SlideType::Title => "Title",
            SlideType::Graphic => "Graphic",
            SlideType::Text => "Text",
        }
    }
}

} // verus!
