use vstd::prelude::*;

verus! {

/// One reading of a looked-up word, with its translations.
#[derive(Debug, Clone, PartialEq, Default)]
pub struct Variant {
    pub featured: bool,
    pub text: String,
    pub pos: String,
    pub audio_links: Vec<AudioLink>,
    pub translations: Vec<Translation>,
}

/// A recording of a word in some language.
#[derive(Debug, Clone, PartialEq, Default)]
pub struct AudioLink {
    pub url: String,
    pub lang: String,
}

/// One translation of a reading, with usage examples.
#[derive(Debug, Clone, PartialEq, Default)]
pub struct Translation {
    pub featured: bool,
    pub text: String,
    pub pos: String,
    pub audio_links: Option<Vec<AudioLink>>,
    pub examples: Vec<Example>,
}

/// A sentence and its translation.
#[derive(Debug, Clone, PartialEq, Default)]
pub struct Example {
    pub src: String,
    pub dst: String,
}

} // verus!
