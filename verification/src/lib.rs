//! Script-aware text segmentation: a text is cut into runs of one dominant
//! script, each run is handed to the segmenter registered for its script and
//! language, and the resulting lexical units are turned into positioned tokens
//! that a chain of normalizers may rewrite.

pub mod detection;
pub mod normalizer;
pub mod segmenter;
pub mod text;
pub mod token;

pub use crate::detection::{AllowList, Language, LanguageDetector, Script, StrDetection};
pub use crate::normalizer::tatweel::TatweelNormalizer;
pub use crate::normalizer::{CharNormalizer, CharOrStr, Pipeline};
pub use crate::segmenter::registry::{Entry, Registry};
pub use crate::segmenter::{Segment, SegmentedStrIter, SegmentedTokenIter, Segmenter};
pub use crate::token::{Lemma, Token, TokenKind};
