//! Extraction of live member counts from an HTML page.
//!
//! The upstream page marks each gym's count with an attribute whose value is
//! the gym's name and whose element text is the count. A compiled selector
//! finds every marked element; each match must yield a name and a count, and
//! one malformed match fails the whole extraction — no partial mapping is
//! ever returned.
//!
//! The `scraper` crate does the HTML parsing and element selection behind the
//! two `external_body` wrappers below; what a selection yields is named by
//! the uninterpreted functions `selector_ok` and `selected_attr_text`, and
//! everything downstream of the selection is verified against those names.

use vstd::prelude::*;
use crate::count::parse_count;
use crate::count::parse_count_u32;
use crate::state::GymState;

verus! {

/// Why an extraction failed. Any one failure aborts the whole extraction.
#[derive(Clone, Copy, Debug, PartialEq, Eq, Structural)]
pub enum ExtractError {
    /// A matched element does not carry the naming attribute.
    MissingName,
    /// A matched element has no text content to read a count from.
    MissingCountText,
    /// A matched element's text is not a valid non-negative integer.
    InvalidCount,
}

impl ExtractError {
    /// The description of this failure, as the response layer reports it.
    pub open spec fn message_spec(&self) -> Seq<char> {
        match self {
            ExtractError::MissingName => "failed to get gym name"@,
            ExtractError::MissingCountText => "failed to get gym member count"@,
            ExtractError::InvalidCount => "failed to parse gym member count"@,
        }
    }

    /// Describe this failure.
    pub fn message(&self) -> (r: &'static str)
        ensures
            r@ == self.message_spec(),
    {
        match self {
            ExtractError::MissingName => "failed to get gym name",
            ExtractError::MissingCountText => "failed to get gym member count",
            ExtractError::InvalidCount => "failed to parse gym member count",
        }
    }
}

#[verifier::external_type_specification]
#[verifier::external_body]
pub struct ExSelector(scraper::Selector);

/// Whether `scraper::Selector::parse` accepts `s` as a selector. Success
/// depends on the selector text alone.
pub uninterp spec fn selector_ok(s: Seq<char>) -> bool;

/// Relies on scraper::Selector::parse: it compiles a CSS selector group from
/// the text, returning `Err` exactly on text it cannot parse.
#[verifier::external_body]
fn parse_selector(s: &str) -> (r: Option<scraper::Selector>)
    ensures
        r is Some <==> selector_ok(s@),
{
    scraper::Selector::parse(s).ok()
}

/// A compiled element selector, paired with the text it was compiled from so
/// that contracts can speak of the selection it performs.
///
/// `parse` is the only constructor, so the compiled selector always belongs
/// to the recorded text.
pub struct LiveSelector {
    selector: scraper::Selector,
    source: Ghost<Seq<char>>,
}

impl LiveSelector {
    /// The selector text this value was compiled from.
    pub closed spec fn source(&self) -> Seq<char> {
        self.source@
    }

    /// Compile a selector: `None` exactly when the text is not a valid
    /// selector.
    pub fn parse(s: &str) -> (r: Option<LiveSelector>)
        ensures
            r is Some <==> selector_ok(s@),
            r matches Some(ls) ==> ls.source() == s@,
    {
        match parse_selector(s) {
            Some(selector) => Some(LiveSelector { selector, source: Ghost(s@) }),
            None => None,
        }
    }
}

/// The attribute that both marks a live-count element and carries the gym's
/// name; its element text is the count.
pub open spec fn live_count_attr() -> Seq<char> {
    "data-live-count"@
}

/// The selector text for the elements that carry the live-count attribute.
pub open spec fn live_count_selector_text() -> Seq<char> {
    "span[data-live-count]"@
}

/// What selecting on a document yields: for each element of the document
/// (parsed leniently as HTML) that the selector matches, in match order, the
/// value of the named attribute and the element's first text chunk. HTML
/// parsing, selection and attribute lookup are deterministic, so this is a
/// function of the three texts alone.
pub uninterp spec fn selected_attr_text(
    doc: Seq<char>,
    selector: Seq<char>,
    attr: Seq<char>,
) -> Seq<(Option<Seq<char>>, Option<Seq<char>>)>;

/// Relies on scraper: Html::parse_document repairs and parses arbitrary text
/// as an HTML document; Html::select yields each element the compiled
/// selector matches; ElementRef::attr looks an attribute up by name;
/// ElementRef::text yields the descendant text chunks in document order.
///
/// The second clause relies on CSS attribute-presence semantics: the
/// live-count selector matches an element only if it carries the live-count
/// attribute, so looking that attribute up on a match always succeeds.
///
/// The selector of a `LiveSelector` was compiled from its recorded source
/// text, so the selection is the one `selected_attr_text` names for it.
#[verifier::external_body]
fn select_attr_text(sel: &LiveSelector, doc: &str, attr: &str) -> (r: Vec<
    (Option<String>, Option<String>),
>)
    ensures
        r.deep_view() == selected_attr_text(doc@, sel.source(), attr@),
        sel.source() == live_count_selector_text() && attr@ == live_count_attr()
            ==> forall|i: int|
            0 <= i < r.deep_view().len() ==> (#[trigger] r.deep_view()[i]).0 is Some,
{
    let html = scraper::Html::parse_document(doc);
    html.select(&sel.selector)
        .map(|e| (e.attr(attr).map(str::to_string), e.text().next().map(str::to_string)))
        .collect()
}

/// What one matched element contributes: its attribute value is the gym's
/// name and its first text chunk, read as a non-negative integer, is the
/// count; each way the pair can be malformed is its own failure.
pub open spec fn pair_result(p: (Option<Seq<char>>, Option<Seq<char>>)) -> Result<
    (Seq<char>, u32),
    ExtractError,
> {
    match p.0 {
        None => Err(ExtractError::MissingName),
        Some(name) => match p.1 {
            None => Err(ExtractError::MissingCountText),
            Some(text) => match parse_count(text) {
                None => Err(ExtractError::InvalidCount),
                Some(v) => Ok((name, v)),
            },
        },
    }
}

/// What extracting a list of matched pairs yields: the pairs are checked in
/// order and folded into a mapping, a later pair overwriting an earlier one
/// of the same name; the first malformed pair fails the whole extraction.
pub open spec fn extract_pairs_spec(pairs: Seq<(Option<Seq<char>>, Option<Seq<char>>)>) -> Result<
    Map<Seq<char>, u32>,
    ExtractError,
>
    decreases pairs.len(),
{
    if pairs.len() == 0 {
        Ok(Map::empty())
    } else {
        match extract_pairs_spec(pairs.drop_last()) {
            Err(e) => Err(e),
            Ok(m) => match pair_result(pairs.last()) {
                Err(e) => Err(e),
                Ok(kv) => Ok(m.insert(kv.0, kv.1)),
            },
        }
    }
}

/// What extracting a whole document with a selector yields.
pub open spec fn extract_spec(doc: Seq<char>, selector: Seq<char>) -> Result<
    Map<Seq<char>, u32>,
    ExtractError,
> {
    extract_pairs_spec(selected_attr_text(doc, selector, live_count_attr()))
}

/// A malformed pair anywhere in a prefix decides the whole extraction.
pub proof fn lemma_extract_err_persists(
    pairs: Seq<(Option<Seq<char>>, Option<Seq<char>>)>,
    k: int,
)
    requires
        0 <= k <= pairs.len(),
        extract_pairs_spec(pairs.take(k)) is Err,
    ensures
        extract_pairs_spec(pairs) == extract_pairs_spec(pairs.take(k)),
    decreases pairs.len() - k,
{
    if k < pairs.len() {
        assert(pairs.take(k + 1).drop_last() =~= pairs.take(k));
        lemma_extract_err_persists(pairs, k + 1);
    } else {
        assert(pairs.take(k) =~= pairs);
    }
}

/// Build the gym mapping from the matched pairs, in order: the first
/// malformed pair aborts with its failure; otherwise every pair lands in the
/// mapping, a later pair overwriting an earlier one of the same name.
pub fn extract_from_pairs(pairs: &Vec<(Option<String>, Option<String>)>) -> (r: Result<
    GymState,
    ExtractError,
>)
    ensures
        r matches Ok(state) ==> state.wf() && extract_pairs_spec(pairs.deep_view())
            == Ok::<Map<Seq<char>, u32>, ExtractError>(state@),
        r matches Err(e) ==> extract_pairs_spec(pairs.deep_view()) == Err::<
            Map<Seq<char>, u32>,
            ExtractError,
        >(e),
{
    let ghost all = pairs.deep_view();
    let n: usize = pairs.len();
    let mut state = GymState::new();
    let mut i: usize = 0;
    while i < n
        invariant
            all == pairs.deep_view(),
            n == pairs@.len(),
            all.len() == n,
            0 <= i <= n,
            state.wf(),
            extract_pairs_spec(all.take(i as int)) == Ok::<Map<Seq<char>, u32>, ExtractError>(
                state@,
            ),
        decreases n - i,
    {
        proof {
            assert(all.take(i + 1).drop_last() =~= all.take(i as int));
            assert(all[i as int] == pairs@[i as int].deep_view());
        }
        let pair = &pairs[i];
        let name: String = match &pair.0 {
            Some(nm) => nm.clone(),
            None => {
                proof {
                    lemma_extract_err_persists(all, i + 1);
                }
                return Err(ExtractError::MissingName);
            },
        };
        let text: &String = match &pair.1 {
            Some(tx) => tx,
            None => {
                proof {
                    lemma_extract_err_persists(all, i + 1);
                }
                return Err(ExtractError::MissingCountText);
            },
        };
        let count: u32 = match parse_count_u32(text.as_str()) {
            Some(c) => c,
            None => {
                proof {
                    lemma_extract_err_persists(all, i + 1);
                }
                return Err(ExtractError::InvalidCount);
            },
        };
        state.insert(name, count);
        i = i + 1;
    }
    proof {
        assert(all.take(n as int) =~= all);
    }
    Ok(state)
}

/// Compile the process-wide live-count selector. It is meant to be compiled
/// once, before requests are served, and shared read-only by every request.
pub fn live_count_selector() -> (r: Option<LiveSelector>)
    ensures
        r is Some <==> selector_ok(live_count_selector_text()),
        r matches Some(ls) ==> ls.source() == live_count_selector_text(),
{
    LiveSelector::parse("span[data-live-count]")
}

/// Extract the gym mapping from the raw text of the upstream page: parse it
/// leniently as HTML, select every element the selector matches, and read
/// each match's live-count attribute as the gym's name and its first text
/// chunk as the count. One malformed match fails the whole extraction.
///
/// With the live-count selector a match always carries the naming attribute,
/// so that failure never reports a missing name.
pub fn extract_gym_member_count(sel: &LiveSelector, doc: &str) -> (r: Result<
    GymState,
    ExtractError,
>)
    ensures
        r matches Ok(state) ==> state.wf() && extract_spec(doc@, sel.source())
            == Ok::<Map<Seq<char>, u32>, ExtractError>(state@),
        r matches Err(e) ==> extract_spec(doc@, sel.source()) == Err::<
            Map<Seq<char>, u32>,
            ExtractError,
        >(e),
        sel.source() == live_count_selector_text() ==> (r matches Err(e) ==> e
            != ExtractError::MissingName),
{
    let pairs = select_attr_text(sel, doc, "data-live-count");
    proof {
        assert("data-live-count"@ == live_count_attr());
        if sel.source() == live_count_selector_text() {
            lemma_names_present_no_missing_name(pairs.deep_view());
        }
    }
    extract_from_pairs(&pairs)
}

/// Law: when every pair carries a name, extraction never fails for a missing
/// name. With the live-count selector every matched element carries the
/// naming attribute, so this covers every selection that selector makes.
pub proof fn lemma_names_present_no_missing_name(
    pairs: Seq<(Option<Seq<char>>, Option<Seq<char>>)>,
)
    requires
        forall|i: int| 0 <= i < pairs.len() ==> (#[trigger] pairs[i]).0 is Some,
    ensures
        extract_pairs_spec(pairs) != Err::<Map<Seq<char>, u32>, ExtractError>(
            ExtractError::MissingName,
        ),
    decreases pairs.len(),
{
    if pairs.len() > 0 {
        assert(pairs.drop_last() =~= pairs.take(pairs.len() - 1));
        assert forall|i: int| 0 <= i < pairs.drop_last().len() implies (#[trigger] pairs.drop_last()[i]).0
            is Some by {
            assert(pairs[i].0 is Some);
        }
        lemma_names_present_no_missing_name(pairs.drop_last());
        assert(pairs.last().0 is Some);
    }
}

} // verus!
