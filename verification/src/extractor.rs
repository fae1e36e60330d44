//! Signal extraction: the rules that reduce a page's raw content to one number.

use crate::markup::{
    count_matching, matching_elements, selector_accepted, selector_parses, text_of, MARKUP_LIMIT,
    SELECTOR_LIMIT,
};
use crate::occurrences::{count_occurrences, occurrence_count, occurrence_count_is_bounded};
use crate::text::{counting_bytes_counts_characters, encoding_is_empty_only_of_empty};
use vstd::prelude::*;
use vstd::slice::slice_to_vec;
use vstd::utf8::{decode_utf8, encode_utf8, encode_utf8_decode_utf8, valid_utf8};

verus! {

/// Why no signal could be had from a rule or from a page's content.
#[derive(Clone, Copy, Debug, PartialEq, Eq, Structural)]
pub enum ExtractionError {
    /// The content cannot be read as a markup document: it is no UTF-8 text,
    /// or it is longer than [`MARKUP_LIMIT`] bytes.
    ParseFailed,
    /// The rule itself is malformed: an empty pattern, a selector that is no
    /// CSS selector, or one that is longer than [`SELECTOR_LIMIT`] bytes.
    InvalidConfiguration,
}

/// An extraction rule as a mathematical value.
pub enum ExtractionRule {
    /// Count the non-overlapping occurrences of a literal byte pattern.
    SubstringCount { pattern: Seq<u8> },
    /// Count the elements of the document that a CSS selector matches.
    ElementCount { selector: Seq<char> },
}

impl ExtractionRule {
    /// Whether the rule can be applied at all.
    pub open spec fn configured(self) -> bool {
        match self {
            ExtractionRule::SubstringCount { pattern } => pattern.len() > 0,
            ExtractionRule::ElementCount { selector } => {
                &&& encode_utf8(selector).len() <= SELECTOR_LIMIT
                &&& selector_accepted(selector)
            },
        }
    }

    /// The signal that the rule extracts from `content`, or why it extracts
    /// none.
    pub open spec fn signal(self, content: Seq<u8>) -> Result<nat, ExtractionError> {
        match self {
            ExtractionRule::SubstringCount { pattern } => {
                if pattern.len() == 0 {
                    Err(ExtractionError::InvalidConfiguration)
                } else {
                    Ok(occurrence_count(content, pattern))
                }
            },
            ExtractionRule::ElementCount { selector } => {
                if !self.configured() {
                    Err(ExtractionError::InvalidConfiguration)
                } else if content.len() > MARKUP_LIMIT || !valid_utf8(content) {
                    Err(ExtractionError::ParseFailed)
                } else {
                    Ok(matching_elements(decode_utf8(content), selector))
                }
            },
        }
    }
}

#[derive(Debug, PartialEq, Eq)]
enum Rule {
    SubstringCount { pattern: Vec<u8> },
    ElementCount { selector: String },
}

/// A configured extraction rule.
///
/// A value of this type can only be made by [`SignalExtractor::substring_count`]
/// and [`SignalExtractor::element_count`], which refuse a malformed rule, so
/// a rule that exists can be applied to every content.
#[derive(Debug, PartialEq, Eq)]
pub struct SignalExtractor {
    rule: Rule,
}

impl View for SignalExtractor {
    type V = ExtractionRule;

    closed spec fn view(&self) -> ExtractionRule {
        match self.rule {
            Rule::SubstringCount { pattern } => ExtractionRule::SubstringCount { pattern: pattern@ },
            Rule::ElementCount { selector } => ExtractionRule::ElementCount { selector: selector@ },
        }
    }
}

impl SignalExtractor {
    #[verifier::type_invariant]
    spec fn well_configured(&self) -> bool {
        self@.configured()
    }

    /// Makes the rule that counts the non-overlapping occurrences of the
    /// bytes of `pattern`, exactly as they are, with no regard to case
    /// folding or to any pattern syntax.
    pub fn substring_count(pattern: &str) -> (made: Result<SignalExtractor, ExtractionError>)
        ensures
            made is Ok <==> pattern@.len() > 0,
            made matches Ok(extractor) ==> extractor@ == (ExtractionRule::SubstringCount {
                pattern: encode_utf8(pattern@),
            }),
            made matches Err(reason) ==> reason == ExtractionError::InvalidConfiguration,
    {
        if pattern.is_empty() {
            return Err(ExtractionError::InvalidConfiguration);
        }
        let bytes = slice_to_vec(pattern.as_bytes());
        proof {
            encoding_is_empty_only_of_empty(pattern@);
        }
        Ok(SignalExtractor { rule: Rule::SubstringCount { pattern: bytes } })
    }

    /// Makes the rule that counts the elements matched by the CSS selector
    /// group `selector`.
    ///
    /// A selector of more than [`SELECTOR_LIMIT`] bytes is refused unread.
    pub fn element_count(selector: &str) -> (made: Result<SignalExtractor, ExtractionError>)
        ensures
            made is Ok <==> encode_utf8(selector@).len() <= SELECTOR_LIMIT && selector_accepted(
                selector@,
            ),
            made matches Ok(extractor) ==> extractor@ == (ExtractionRule::ElementCount {
                selector: selector@,
            }),
            made matches Err(reason) ==> reason == ExtractionError::InvalidConfiguration,
    {
        if selector.as_bytes().len() > SELECTOR_LIMIT {
            return Err(ExtractionError::InvalidConfiguration);
        }
        if !selector_parses(selector) {
            return Err(ExtractionError::InvalidConfiguration);
        }
        Ok(SignalExtractor { rule: Rule::ElementCount { selector: selector.to_owned() } })
    }

    /// Extracts the signal from a page's raw content.
    ///
    /// A substring count reads the content as bytes and never fails. An
    /// element count reads it as UTF-8 text and fails with
    /// [`ExtractionError::ParseFailed`] where it is none, or where it is
    /// longer than [`MARKUP_LIMIT`] bytes; markup that is text within that
    /// limit is always read, however malformed.
    pub fn extract(&self, content: &[u8]) -> (signal: Result<usize, ExtractionError>)
        ensures
            signal matches Ok(n) ==> self@.signal(content@) == Ok::<nat, ExtractionError>(n as nat),
            signal matches Err(reason) ==> self@.signal(content@) == Err::<nat, ExtractionError>(
                reason,
            ),
            signal != Err::<usize, ExtractionError>(ExtractionError::InvalidConfiguration),
    {
        proof {
            use_type_invariant(self);
        }
        match &self.rule {
            Rule::SubstringCount { pattern } => Ok(count_occurrences(content, pattern.as_slice())),
            Rule::ElementCount { selector } => {
                if content.len() > MARKUP_LIMIT {
                    return Err(ExtractionError::ParseFailed);
                }
                match text_of(content) {
                    None => Err(ExtractionError::ParseFailed),
                    Some(document) => {
                        proof {
                            encode_utf8_decode_utf8(document@);
                        }
                        match count_matching(document, selector.as_str()) {
                            Some(n) => Ok(n),
                            None => Err(ExtractionError::InvalidConfiguration),
                        }
                    },
                }
            },
        }
    }
}

/// A rule gives [`ExtractionError::InvalidConfiguration`] on every content
/// or on none: it gives it exactly where the rule is malformed.
pub proof fn malformed_rule_fails_everywhere(rule: ExtractionRule, content: Seq<u8>)
    ensures
        rule.signal(content) == Err::<nat, ExtractionError>(
            ExtractionError::InvalidConfiguration,
        ) <==> !rule.configured(),
{
}

/// A substring count never fails on a non-empty pattern, and counts no more
/// occurrences than fit into the content side by side.
pub proof fn substring_count_is_total(pattern: Seq<u8>, content: Seq<u8>)
    requires
        pattern.len() > 0,
    ensures
        (ExtractionRule::SubstringCount { pattern }).signal(content) == Ok::<nat, ExtractionError>(
            occurrence_count(content, pattern),
        ),
        occurrence_count(content, pattern) * pattern.len() <= content.len(),
{
    occurrence_count_is_bounded(content, pattern);
}

/// Where the content is text, a substring count made from a pattern counts
/// the occurrences of the pattern's characters among the characters of the
/// text.
pub proof fn substring_count_on_text(pattern: Seq<char>, text: Seq<char>)
    requires
        pattern.len() > 0,
    ensures
        (ExtractionRule::SubstringCount { pattern: encode_utf8(pattern) }).signal(
            encode_utf8(text),
        ) == Ok::<nat, ExtractionError>(occurrence_count(text, pattern)),
{
    encoding_is_empty_only_of_empty(pattern);
    counting_bytes_counts_characters(text, pattern);
}

} // verus!
