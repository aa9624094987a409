//! Searching: the matches that ripgrep reports, filtered and bounded.
use vstd::prelude::*;

use crate::encoding::{byte_len, byte_len_of, decode_text, fitting_chars,
    fitting_chars_is_the_longest_prefix, fitting_prefix, lemma_byte_len_push, utf8_text};
use crate::executable::{error_text, RgOutput};
use crate::failure::{fail, fail_about, fail_in, outcome, Failure, FailureKind, Refusal};
use crate::glob::{glob_refusal, is_glob, validate_glob};
use crate::listing::{records, whole_records};
use crate::paths::{path_refusal, strip_prefix, validate_relative_path, without_prefix};
use crate::scan::{lines, lines_of, trim_line_end, trimmed_end_of};
use crate::text::{as_opt_str, copy, opt_str, opt_text, same_text, texts};
use crate::workspace::{is_wanted, scope_of, wanted, PathProbe, Workspace};

verus! {

/// Matches that one search returns at most.
pub const SEARCH_MATCH_LIMIT: usize = 20;

/// Bytes that are returned of one matched line.
pub const SEARCH_FRAGMENT_BYTE_LIMIT: usize = 1024;

/// Bytes that are kept of a matched line that is longer, so that the ellipsis fits in too.
pub const CUT_FRAGMENT_BYTE_LIMIT: usize = 1021;

/// A search of the visible text with a regular expression.
#[derive(Clone, Debug, PartialEq, Eq)]
pub struct SearchInput {
    pub pattern: String,
    pub glob: Option<String>,
    pub path: Option<String>,
}

/// One match.
#[derive(Clone, Debug, PartialEq, Eq)]
pub struct SearchMatch {
    pub path: String,
    pub line: u64,
    pub column: u64,
    /// The matched line, cut to [`SEARCH_FRAGMENT_BYTE_LIMIT`].
    pub text: String,
}

/// One match over texts.
#[verifier::ext_equal]
pub struct MatchView {
    pub path: Seq<char>,
    pub line: u64,
    pub column: u64,
    pub text: Seq<char>,
}

impl View for SearchMatch {
    type V = MatchView;

    open spec fn view(&self) -> MatchView {
        MatchView {
            path: self.path@,
            line: self.line,
            column: self.column,
            text: self.text@,
        }
    }
}

/// The matches, and whether there are more.
#[derive(Clone, Debug, PartialEq, Eq)]
pub struct SearchOutput {
    pub matches: Vec<SearchMatch>,
    pub truncated: bool,
}

/// The matches over texts.
pub open spec fn match_views(s: Seq<SearchMatch>) -> Seq<MatchView> {
    Seq::new(s.len(), |i: int| s[i]@)
}

impl View for SearchOutput {
    type V = (Seq<MatchView>, bool);

    open spec fn view(&self) -> (Seq<MatchView>, bool) {
        (match_views(self.matches@), self.truncated)
    }
}

/// What is read of one event that ripgrep reports.
#[derive(Debug)]
pub struct RgEvent {
    pub kind: Option<String>,
    pub has_data: bool,
    pub path: Option<String>,
    pub line_number: Option<u64>,
    /// Where the first part of the line that matched starts, counted from zero.
    pub start: Option<u64>,
    pub text: Option<String>,
}

/// What is read of one event, over texts.
#[verifier::ext_equal]
pub struct EventView {
    pub kind: Option<Seq<char>>,
    pub has_data: bool,
    pub path: Option<Seq<char>>,
    pub line_number: Option<u64>,
    pub start: Option<u64>,
    pub text: Option<Seq<char>>,
}

impl View for RgEvent {
    type V = EventView;

    open spec fn view(&self) -> EventView {
        EventView {
            kind: opt_text(self.kind),
            has_data: self.has_data,
            path: opt_text(self.path),
            line_number: self.line_number,
            start: self.start,
            text: opt_text(self.text),
        }
    }
}

/// What stands at one place of a JSON text.
#[derive(Debug)]
pub enum JsonItem {
    Null,
    Bool(bool),
    /// A number; with its value where that is a whole one that fits.
    Number(Option<u64>),
    Text(String),
    Array,
    Object,
}

/// What stands at one place of a JSON text, over texts.
pub enum ItemView {
    Null,
    Bool(bool),
    Number(Option<u64>),
    Text(Seq<char>),
    Array,
    Object,
}

impl View for JsonItem {
    type V = ItemView;

    open spec fn view(&self) -> ItemView {
        match *self {
            JsonItem::Null => ItemView::Null,
            JsonItem::Bool(value) => ItemView::Bool(value),
            JsonItem::Number(value) => ItemView::Number(value),
            JsonItem::Text(text) => ItemView::Text(text@),
            JsonItem::Array => ItemView::Array,
            JsonItem::Object => ItemView::Object,
        }
    }
}

/// An item where there is one, over texts.
pub open spec fn opt_item(item: Option<JsonItem>) -> Option<ItemView> {
    match item {
        Some(item) => Some(item@),
        None => None,
    }
}

/// The message with which `serde_json` refuses a text that is no JSON.
pub uninterp spec fn json_error(text: Seq<char>) -> Option<Seq<char>>;

/// What `serde_json` finds in a JSON text at a JSON pointer.
pub uninterp spec fn json_item(text: Seq<char>, pointer: Seq<char>) -> Option<ItemView>;

/// `serde_json::from_str` parses a text into a value, or returns an error with a message. Which of
/// the two comes, and the message, depend on the text alone; what they are for a given text is left
/// open.
#[verifier::external_body]
fn json_error_of(text: &str) -> (r: Option<String>)
    ensures
        opt_text(r) == json_error(text@),
{
    serde_json::from_str::<serde_json::Value>(text).err().map(|e| e.to_string())
}

/// `serde_json::Value::pointer` looks a place up in the value that a text parses into. What stands
/// there, if anything does, depends on the text and the pointer alone; what it is for given ones is
/// left open.
#[verifier::external_body]
fn json_item_at(text: &str, pointer: &str) -> (r: Option<JsonItem>)
    ensures
        opt_item(r) == json_item(text@, pointer@),
{
    let value: serde_json::Value = serde_json::from_str(text).ok()?;
    Some(match value.pointer(pointer)? {
        serde_json::Value::Null => JsonItem::Null,
        serde_json::Value::Bool(value) => JsonItem::Bool(*value),
        serde_json::Value::Number(number) => JsonItem::Number(number.as_u64()),
        serde_json::Value::String(text) => JsonItem::Text(text.clone()),
        serde_json::Value::Array(_) => JsonItem::Array,
        serde_json::Value::Object(_) => JsonItem::Object,
    })
}

/// The text of an item that is one.
pub open spec fn item_text(item: Option<ItemView>) -> Option<Seq<char>> {
    match item {
        Some(ItemView::Text(text)) => Some(text),
        _ => None,
    }
}

/// The value of an item that is a whole number that fits.
pub open spec fn item_number(item: Option<ItemView>) -> Option<u64> {
    match item {
        Some(ItemView::Number(value)) => value,
        _ => None,
    }
}

/// What is read of an event from the items that stand at its places.
pub open spec fn event_with(
    kind: Option<ItemView>,
    data: Option<ItemView>,
    path: Option<ItemView>,
    line_number: Option<ItemView>,
    submatches: Option<ItemView>,
    start: Option<ItemView>,
    text: Option<ItemView>,
) -> EventView {
    EventView {
        kind: item_text(kind),
        has_data: data is Some,
        path: item_text(path),
        line_number: item_number(line_number),
        start: if submatches == Some(ItemView::Array) {
            item_number(start)
        } else {
            None
        },
        text: item_text(text),
    }
}

/// What is read of a line that holds one event, or the message of the error that stands for it.
pub open spec fn event_of(line: Seq<char>) -> Result<EventView, Seq<char>> {
    match json_error(line) {
        Some(message) => Err(message),
        None => Ok(
            event_with(
                json_item(line, "/type"@),
                json_item(line, "/data"@),
                json_item(line, "/data/path/text"@),
                json_item(line, "/data/line_number"@),
                json_item(line, "/data/submatches"@),
                json_item(line, "/data/submatches/0/start"@),
                json_item(line, "/data/lines/text"@),
            ),
        ),
    }
}

/// An event or the message of the error that stands for it, over texts.
pub open spec fn event_outcome(r: Result<RgEvent, String>) -> Result<EventView, Seq<char>> {
    match r {
        Ok(event) => Ok(event@),
        Err(message) => Err(message@),
    }
}

impl JsonItem {
    /// The text of an item that is one.
    fn text_of(item: Option<JsonItem>) -> (r: Option<String>)
        ensures
            opt_text(r) == item_text(opt_item(item)),
    {
        match item {
            Some(JsonItem::Text(text)) => Some(text),
            _ => None,
        }
    }

    /// The value of an item that is a whole number that fits.
    fn number_of(item: Option<JsonItem>) -> (r: Option<u64>)
        ensures
            r == item_number(opt_item(item)),
    {
        match item {
            Some(JsonItem::Number(value)) => value,
            _ => None,
        }
    }
}

impl RgEvent {
    /// Reads an event from the items that stand at its places.
    pub fn from_items(
        kind: Option<JsonItem>,
        data: Option<JsonItem>,
        path: Option<JsonItem>,
        line_number: Option<JsonItem>,
        submatches: Option<JsonItem>,
        start: Option<JsonItem>,
        text: Option<JsonItem>,
    ) -> (r: RgEvent)
        ensures
            r@ == event_with(
                opt_item(kind),
                opt_item(data),
                opt_item(path),
                opt_item(line_number),
                opt_item(submatches),
                opt_item(start),
                opt_item(text),
            ),
    {
        let start = match submatches {
            Some(JsonItem::Array) => JsonItem::number_of(start),
            _ => None,
        };
        RgEvent {
            kind: JsonItem::text_of(kind),
            has_data: data.is_some(),
            path: JsonItem::text_of(path),
            line_number: JsonItem::number_of(line_number),
            start,
            text: JsonItem::text_of(text),
        }
    }

    /// Reads the event that a line of ripgrep's output holds.
    pub fn parse(line: &str) -> (r: Result<RgEvent, String>)
        ensures
            event_outcome(r) == event_of(line@),
    {
        match json_error_of(line) {
            Some(message) => Err(message),
            None => Ok(
                RgEvent::from_items(
                    json_item_at(line, "/type"),
                    json_item_at(line, "/data"),
                    json_item_at(line, "/data/path/text"),
                    json_item_at(line, "/data/line_number"),
                    json_item_at(line, "/data/submatches"),
                    json_item_at(line, "/data/submatches/0/start"),
                    json_item_at(line, "/data/lines/text"),
                ),
            ),
        }
    }
}

/// What the lines of an output hold: an event each, or an error message in its place.
pub open spec fn events_of(all: Seq<Seq<char>>) -> Seq<Result<EventView, Seq<char>>> {
    Seq::new(all.len(), |i: int| event_of(all[i]))
}

/// Where a match starts, counted from one; zero where that is unknown.
pub open spec fn column_of(start: Option<u64>) -> u64 {
    match start {
        None => 0,
        Some(at) => if at < u64::MAX {
            (at + 1) as u64
        } else {
            u64::MAX
        },
    }
}

/// The path that a match event names, or why the event is refused; nothing for other events.
pub open spec fn event_path(event: EventView) -> Result<Option<Seq<char>>, Refusal> {
    if event.kind != Some("match"@) {
        Ok(None)
    } else if !event.has_data {
        Err((FailureKind::BadEvent, "ripgrep match has no data"@))
    } else {
        match event.path {
            None => Err((FailureKind::NonUtf8Path, "ripgrep returned a non-UTF-8 path"@)),
            Some(raw) => {
                let path = without_prefix(raw, "./"@);
                match path_refusal(path) {
                    Some(refusal) => Err(refusal),
                    None => Ok(Some(path)),
                }
            },
        }
    }
}

/// What is returned of a matched line: the whole line, or its beginning and an ellipsis, no more
/// than the limit together.
pub open spec fn fragment_text(line: Seq<char>) -> Seq<char> {
    if byte_len(line) <= SEARCH_FRAGMENT_BYTE_LIMIT {
        line
    } else {
        line.take(fitting_chars(line, CUT_FRAGMENT_BYTE_LIMIT as nat) as int).push('\u{2026}')
    }
}

/// What is returned of a matched line.
fn cut_fragment(line: &str) -> (r: String)
    ensures
        r@ == fragment_text(line@),
{
    if byte_len_of(line) <= SEARCH_FRAGMENT_BYTE_LIMIT {
        return copy(line);
    }
    let mut r = fitting_prefix(line, CUT_FRAGMENT_BYTE_LIMIT);
    r.push('\u{2026}');
    r
}

/// What is returned of a matched line keeps to the limit, ellipsis and all; a line within the limit
/// is returned whole, and of a longer one its beginning is.
pub proof fn fragments_keep_the_limit(line: Seq<char>)
    ensures
        byte_len(fragment_text(line)) <= SEARCH_FRAGMENT_BYTE_LIMIT,
        byte_len(line) <= SEARCH_FRAGMENT_BYTE_LIMIT ==> fragment_text(line) == line,
        byte_len(line) > SEARCH_FRAGMENT_BYTE_LIMIT ==> fragment_text(line).drop_last().is_prefix_of(
            line,
        ) && fragment_text(line).last() == '\u{2026}',
{
    if byte_len(line) > SEARCH_FRAGMENT_BYTE_LIMIT {
        let kept = fitting_chars(line, CUT_FRAGMENT_BYTE_LIMIT as nat) as int;
        fitting_chars_is_the_longest_prefix(line, CUT_FRAGMENT_BYTE_LIMIT as nat);
        lemma_byte_len_push(line.take(kept), '\u{2026}');
        assert(fragment_text(line).drop_last() =~= line.take(kept));
    }
}

/// The match that an event stands for, given its path.
pub open spec fn event_match(event: EventView, path: Seq<char>) -> Result<MatchView, Refusal> {
    match event.text {
        None => Err((FailureKind::BadEvent, "ripgrep returned non-UTF-8 match text"@)),
        Some(text) => Ok(
            MatchView {
                path,
                line: match event.line_number {
                    Some(number) => number,
                    None => 0,
                },
                column: column_of(event.start),
                text: fragment_text(trimmed_end_of(text, |c: char| c == '\r' || c == '\n')),
            },
        ),
    }
}

/// The wanted matches of the events from `i` on, added to those found so far, and whether there
/// are more than the limit; or the first refusal.
pub open spec fn matches_from(
    events: Seq<Result<EventView, Seq<char>>>,
    scope: Option<Seq<char>>,
    glob: Option<Seq<char>>,
    i: int,
    found: Seq<MatchView>,
) -> Result<(Seq<MatchView>, bool), Refusal>
    decreases events.len() - i,
{
    if i < 0 || i >= events.len() {
        Ok((found, false))
    } else {
        match events[i] {
            Err(message) => Err(
                (FailureKind::BadEvent, "decode ripgrep JSON event"@ + ": "@ + message),
            ),
            Ok(event) => match event_path(event) {
                Err(refusal) => Err(refusal),
                Ok(None) => matches_from(events, scope, glob, i + 1, found),
                Ok(Some(path)) => if !wanted(scope, glob, path) {
                    matches_from(events, scope, glob, i + 1, found)
                } else if found.len() >= SEARCH_MATCH_LIMIT {
                    Ok((found, true))
                } else {
                    match event_match(event, path) {
                        Err(refusal) => Err(refusal),
                        Ok(hit) => matches_from(events, scope, glob, i + 1, found.push(hit)),
                    }
                },
            },
        }
    }
}

/// The scope of a search, or why the search is not even started.
pub open spec fn search_scope(root: Seq<char>, input: SearchInput, probes: Seq<PathProbe>) -> Result<
    Option<Seq<char>>,
    Refusal,
> {
    if input.pattern@.len() == 0 {
        Err((FailureKind::EmptyPattern, "search pattern must not be empty"@))
    } else {
        match scope_of(root, opt_text(input.path), probes) {
            Err(refusal) => Err(refusal),
            Ok(scope) => if opt_text(input.glob) matches Some(pattern) && !is_glob(pattern) {
                Err(glob_refusal())
            } else {
                Ok(scope)
            },
        }
    }
}

/// What the events of a search come to.
pub open spec fn search_result(
    events: Seq<Result<EventView, Seq<char>>>,
    scope: Option<Seq<char>>,
    glob: Option<Seq<char>>,
    cut: bool,
) -> Result<(Seq<MatchView>, bool), Refusal> {
    match matches_from(events, scope, glob, 0, Seq::empty()) {
        Err(refusal) => Err(refusal),
        Ok((matches, more)) => Ok((matches, cut || more)),
    }
}

/// What a search request answers, given what the file system and ripgrep showed.
pub open spec fn search_answer(
    root: Seq<char>,
    input: SearchInput,
    probes: Seq<PathProbe>,
    output: RgOutput,
) -> Result<(Seq<MatchView>, bool), Refusal> {
    match search_scope(root, input, probes) {
        Err(refusal) => Err(refusal),
        Ok(scope) => if !output.success && output.stderr@.len() > 0 {
            Err((FailureKind::SearchFailed, "ripgrep search failed: "@ + error_text(output)))
        } else {
            match utf8_text(whole_records(output, 10u8)) {
                None => Err((FailureKind::NotUtf8, "ripgrep JSON is not UTF-8"@)),
                Some(text) => search_result(
                    events_of(lines(text)),
                    scope,
                    opt_text(input.glob),
                    output.truncated,
                ),
            }
        },
    }
}

/// The path that a match event names, or why the event is refused; nothing for other events.
fn match_path(event: &RgEvent) -> (r: Result<Option<String>, Failure>)
    ensures
        (match r {
            Ok(path) => Ok::<Option<Seq<char>>, Refusal>(opt_text(path)),
            Err(failure) => Err(failure@),
        }) == event_path(event@),
{
    let is_match = match &event.kind {
        Some(kind) => same_text(kind.as_str(), "match"),
        None => false,
    };
    if !is_match {
        return Ok(None);
    }
    if !event.has_data {
        return Err(fail(FailureKind::BadEvent, "ripgrep match has no data"));
    }
    match &event.path {
        None => Err(fail(FailureKind::NonUtf8Path, "ripgrep returned a non-UTF-8 path")),
        Some(raw) => {
            let path = strip_prefix(raw.as_str(), "./");
            match validate_relative_path(path.as_str()) {
                Err(failure) => Err(failure),
                Ok(()) => Ok(Some(path)),
            }
        },
    }
}

/// The match that an event stands for, given its path.
fn read_match(event: &RgEvent, path: String) -> (r: Result<SearchMatch, Failure>)
    ensures
        outcome(r) == event_match(event@, path@),
{
    match &event.text {
        None => Err(fail(FailureKind::BadEvent, "ripgrep returned non-UTF-8 match text")),
        Some(text) => {
            let line: u64 = match event.line_number {
                Some(number) => number,
                None => 0,
            };
            let column: u64 = match event.start {
                None => 0,
                Some(at) => at.saturating_add(1),
            };
            let bare = trim_line_end(text.as_str());
            let text = cut_fragment(bare.as_str());
            Ok(SearchMatch { path, line, column, text })
        },
    }
}

/// The events that the outcomes of parsing stand for.
pub open spec fn event_outcomes(s: Seq<Result<RgEvent, String>>) -> Seq<
    Result<EventView, Seq<char>>,
> {
    Seq::new(s.len(), |i: int| event_outcome(s[i]))
}

/// Collects the wanted matches from the events of a search. `cut` says that the output these
/// events came from is not complete.
pub fn collect_matches(
    events: &Vec<Result<RgEvent, String>>,
    scope: &Option<String>,
    glob: Option<&str>,
    cut: bool,
) -> (r: Result<SearchOutput, Failure>)
    ensures
        outcome(r) == search_result(
            event_outcomes(events@),
            opt_text(*scope),
            opt_str(glob),
            cut,
        ),
{
    let ghost all = event_outcomes(events@);
    let mut matches: Vec<SearchMatch> = Vec::new();
    let mut i: usize = 0;
    assert(match_views(matches@) =~= Seq::empty());
    while i < events.len()
        invariant
            all == event_outcomes(events@),
            i <= events@.len(),
            matches@.len() <= SEARCH_MATCH_LIMIT,
            matches_from(all, opt_text(*scope), opt_str(glob), 0, Seq::empty()) == matches_from(
                all,
                opt_text(*scope),
                opt_str(glob),
                i as int,
                match_views(matches@),
            ),
        decreases events@.len() - i,
    {
        assert(all.len() == events@.len() && all[i as int] == event_outcome(events@[i as int]));
        match &events[i] {
            Err(message) => {
                return Err(
                    fail_in(FailureKind::BadEvent, "decode ripgrep JSON event", message.as_str()),
                );
            },
            Ok(event) => {
                match match_path(event) {
                    Err(failure) => return Err(failure),
                    Ok(None) => {},
                    Ok(Some(path)) => {
                        if is_wanted(scope, glob, path.as_str()) {
                            if matches.len() == SEARCH_MATCH_LIMIT {
                                return Ok(SearchOutput { matches, truncated: true });
                            }
                            match read_match(event, path) {
                                Err(failure) => return Err(failure),
                                Ok(hit) => {
                                    assert(match_views(matches@.push(hit)) =~= match_views(
                                        matches@,
                                    ).push(hit@));
                                    matches.push(hit);
                                },
                            }
                        }
                    },
                }
            },
        }
        i = i + 1;
    }
    Ok(SearchOutput { matches, truncated: cut })
}

impl Workspace {
    /// Settles the scope of a search before ripgrep is run.
    pub fn admit_search(&self, input: &SearchInput, probes: &[PathProbe]) -> (r: Result<
        Option<String>,
        Failure,
    >)
        ensures
            (match r {
                Ok(scope) => Ok::<Option<Seq<char>>, Refusal>(opt_text(scope)),
                Err(failure) => Err(failure@),
            }) == search_scope(self.root@, *input, probes@),
    {
        if input.pattern.as_str().is_empty() {
            return Err(fail(FailureKind::EmptyPattern, "search pattern must not be empty"));
        }
        let scope = match self.resolve_scope(as_opt_str(&input.path), probes) {
            Err(failure) => return Err(failure),
            Ok(scope) => scope,
        };
        match &input.glob {
            Some(pattern) => {
                match validate_glob(pattern.as_str()) {
                    Err(failure) => return Err(failure),
                    Ok(()) => {},
                }
            },
            None => {},
        }
        Ok(scope)
    }

    /// Searches the visible text. `output` is what the run with
    /// [`crate::executable::search_args`] on the pattern gave.
    pub fn search(&self, input: &SearchInput, probes: &[PathProbe], output: &RgOutput) -> (r: Result<
        SearchOutput,
        Failure,
    >)
        ensures
            outcome(r) == search_answer(self.root@, *input, probes@, *output),
    {
        let scope = match self.admit_search(input, probes) {
            Err(failure) => return Err(failure),
            Ok(scope) => scope,
        };
        // ripgrep fails without a word when nothing matched.
        if !output.success && output.stderr.len() > 0 {
            let reason = output.stderr_text();
            return Err(
                fail_about(FailureKind::SearchFailed, "ripgrep search failed: ", reason.as_str()),
            );
        }
        let text = match decode_text(records(output, 10u8)) {
            None => return Err(fail(FailureKind::NotUtf8, "ripgrep JSON is not UTF-8")),
            Some(text) => text,
        };
        let all = lines_of(text.as_str());
        let ghost expected = events_of(lines(text@));
        let mut events: Vec<Result<RgEvent, String>> = Vec::new();
        let mut i: usize = 0;
        while i < all.len()
            invariant
                texts(all@) == lines(text@),
                expected == events_of(lines(text@)),
                i <= all@.len(),
                events@.len() == i,
                forall|k: int| 0 <= k < i ==> event_outcome(#[trigger] events@[k]) == expected[k],
            decreases all@.len() - i,
        {
            assert(texts(all@)[i as int] == all@[i as int]@);
            assert(texts(all@).len() == all@.len());
            events.push(RgEvent::parse(all[i].as_str()));
            i = i + 1;
        }
        assert(texts(all@).len() == all@.len());
        assert(event_outcomes(events@) =~= expected);
        collect_matches(&events, &scope, as_opt_str(&input.glob), output.truncated)
    }
}

// ---------------------------------------------------------------------------------------------
// Laws
// ---------------------------------------------------------------------------------------------

/// A search returns at most twenty matches, each at a wanted workspace path and with a text
/// of at most 1 KiB. Where the answer does not count as truncated, the output
/// it came from was complete.
pub proof fn searches_are_bounded(
    events: Seq<Result<EventView, Seq<char>>>,
    scope: Option<Seq<char>>,
    glob: Option<Seq<char>>,
    cut: bool,
    matches: Seq<MatchView>,
    truncated: bool,
)
    requires
        search_result(events, scope, glob, cut) == Ok::<(Seq<MatchView>, bool), Refusal>(
            (matches, truncated),
        ),
    ensures
        matches.len() <= SEARCH_MATCH_LIMIT,
        forall|i: int| 0 <= i < matches.len() ==> is_bounded_match(scope, glob, #[trigger] matches[i]),
        !truncated ==> !cut,
{
    lemma_matches_from(events, scope, glob, 0, Seq::empty());
}

/// Whether a match lies at a wanted workspace path and keeps to the size limit.
pub open spec fn is_bounded_match(
    scope: Option<Seq<char>>,
    glob: Option<Seq<char>>,
    hit: MatchView,
) -> bool {
    &&& path_refusal(hit.path) is None
    &&& wanted(scope, glob, hit.path)
    &&& byte_len(hit.text) <= SEARCH_FRAGMENT_BYTE_LIMIT
}

proof fn lemma_matches_from(
    events: Seq<Result<EventView, Seq<char>>>,
    scope: Option<Seq<char>>,
    glob: Option<Seq<char>>,
    i: int,
    found: Seq<MatchView>,
)
    requires
        found.len() <= SEARCH_MATCH_LIMIT,
        forall|k: int| 0 <= k < found.len() ==> is_bounded_match(scope, glob, #[trigger] found[k]),
    ensures
        matches_from(events, scope, glob, i, found) matches Ok((matches, more)) ==> matches.len()
            <= SEARCH_MATCH_LIMIT && (forall|k: int|
            0 <= k < matches.len() ==> is_bounded_match(scope, glob, #[trigger] matches[k])),
    decreases events.len() - i,
{
    if 0 <= i < events.len() && events[i] is Ok {
        let event = events[i]->Ok_0;
        match event_path(event) {
            Ok(Some(path)) => {
                if !wanted(scope, glob, path) {
                    lemma_matches_from(events, scope, glob, i + 1, found);
                } else if found.len() < SEARCH_MATCH_LIMIT && event_match(event, path) is Ok {
                    let hit = event_match(event, path)->Ok_0;
                    fragments_keep_the_limit(
                        trimmed_end_of(event.text->Some_0, |c: char| c == '\r' || c == '\n'),
                    );
                    lemma_matches_from(events, scope, glob, i + 1, found.push(hit));
                }
            },
            Ok(None) => {
                lemma_matches_from(events, scope, glob, i + 1, found);
            },
            Err(_) => {},
        }
    }
}

/// Whether an event is a wanted match.
pub open spec fn is_wanted_match(
    scope: Option<Seq<char>>,
    glob: Option<Seq<char>>,
    event: Result<EventView, Seq<char>>,
) -> bool {
    event matches Ok(view) && event_path(view) matches Ok(Some(path)) && wanted(scope, glob, path)
}

/// How many of the first `n` events are wanted matches.
pub open spec fn wanted_count(
    scope: Option<Seq<char>>,
    glob: Option<Seq<char>>,
    events: Seq<Result<EventView, Seq<char>>>,
    n: int,
) -> nat
    decreases n,
{
    if n <= 0 {
        0
    } else {
        wanted_count(scope, glob, events, n - 1) + (if is_wanted_match(scope, glob, events[n - 1]) {
            1nat
        } else {
            0nat
        })
    }
}

/// A search that answers without truncation returns as many matches as there are wanted ones.
pub proof fn untruncated_searches_are_complete(
    events: Seq<Result<EventView, Seq<char>>>,
    scope: Option<Seq<char>>,
    glob: Option<Seq<char>>,
    cut: bool,
    matches: Seq<MatchView>,
)
    requires
        search_result(events, scope, glob, cut) == Ok::<(Seq<MatchView>, bool), Refusal>(
            (matches, false),
        ),
    ensures
        matches.len() == wanted_count(scope, glob, events, events.len() as int),
{
    lemma_complete(events, scope, glob, 0, Seq::empty());
}

proof fn lemma_complete(
    events: Seq<Result<EventView, Seq<char>>>,
    scope: Option<Seq<char>>,
    glob: Option<Seq<char>>,
    i: int,
    found: Seq<MatchView>,
)
    requires
        0 <= i <= events.len(),
        found.len() == wanted_count(scope, glob, events, i),
    ensures
        matches_from(events, scope, glob, i, found) matches Ok((matches, more)) ==> !more
            ==> matches.len() == wanted_count(scope, glob, events, events.len() as int),
    decreases events.len() - i,
{
    if i < events.len() && events[i] is Ok {
        let event = events[i]->Ok_0;
        match event_path(event) {
            Ok(Some(path)) => {
                if !wanted(scope, glob, path) {
                    lemma_complete(events, scope, glob, i + 1, found);
                } else if found.len() < SEARCH_MATCH_LIMIT && event_match(event, path) is Ok {
                    let hit = event_match(event, path)->Ok_0;
                    lemma_complete(events, scope, glob, i + 1, found.push(hit));
                }
            },
            Ok(None) => {
                lemma_complete(events, scope, glob, i + 1, found);
            },
            Err(_) => {},
        }
    }
}

} // verus!
