use vstd::prelude::*;
use crate::duration::{flex_span, parse_duration_flex, Span};
use crate::json::{find_field, fields_view, lookup, object_fields, parse_object, FieldsView, Scalar, ScalarView};

verus! {

/// An instant in UTC: seconds since the Unix epoch and the nanoseconds past them.
#[derive(Clone, Copy, Debug, PartialEq, Eq)]
pub struct Timestamp {
    pub secs: i64,
    pub nanos: u32,
}

impl Timestamp {
    /// `self` is not earlier than `other`.
    pub open spec fn spec_not_before(self, other: Timestamp) -> bool {
        self.secs > other.secs || (self.secs == other.secs && self.nanos >= other.nanos)
    }

    pub fn not_before(&self, other: &Timestamp) -> (r: bool)
        ensures
            r == self.spec_not_before(*other),
    {
        self.secs > other.secs || (self.secs == other.secs && self.nanos >= other.nanos)
    }
}

/// The instant that chrono reads from a date and time text.
pub uninterp spec fn instant_of(s: Seq<char>) -> Option<Timestamp>;

/// Relies on chrono's `FromStr` for `DateTime<Utc>` (an RFC 3339 date and time
/// with an offset, taken to UTC): the outcome depends on the text alone.
#[verifier::external_body]
fn parse_instant(s: &str) -> (r: Option<Timestamp>)
    ensures
        r == instant_of(s@),
{
    s.parse::<chrono::DateTime<chrono::Utc>>().ok().map(
        |d| Timestamp { secs: d.timestamp(), nanos: d.timestamp_subsec_nanos() },
    )
}

/// One media entry of a collection.
#[derive(Clone, Debug)]
pub struct Entry {
    pub id: String,
    pub title: String,
    pub description: String,
    pub created_at: Timestamp,
    pub duration: Span,
    /// Present only where the entry's file gives it.
    pub hidden: Option<bool>,
}

pub struct EntryView {
    pub id: Seq<char>,
    pub title: Seq<char>,
    pub description: Seq<char>,
    pub created_at: Timestamp,
    pub duration: Span,
    pub hidden: Option<bool>,
}

impl View for Entry {
    type V = EntryView;

    open spec fn view(&self) -> EntryView {
        EntryView {
            id: self.id@,
            title: self.title@,
            description: self.description@,
            created_at: self.created_at,
            duration: self.duration,
            hidden: self.hidden,
        }
    }
}

impl EntryView {
    pub open spec fn is_hidden(self) -> bool {
        self.hidden == Some(true)
    }
}

impl Entry {
    /// The entry is left out of listings.
    pub fn is_hidden(&self) -> (r: bool)
        ensures
            r == self@.is_hidden(),
    {
        match self.hidden {
            Some(h) => h,
            None => false,
        }
    }
}

pub open spec fn opt_view(e: Option<Entry>) -> Option<EntryView> {
    match e {
        Some(e) => Some(e@),
        None => None,
    }
}

/// The entry with id `id` that the fields of an object describe, if they are valid:
/// `title` a string; `description` a string or absent (then empty); `created_at`
/// a date and time; `duration` seconds or a duration text; `hidden` a boolean,
/// null or absent.
pub open spec fn entry_spec(id: Seq<char>, fs: FieldsView) -> Option<EntryView> {
    let title = lookup(fs, "title"@);
    let description = lookup(fs, "description"@);
    let created = lookup(fs, "created_at"@);
    let duration = lookup(fs, "duration"@);
    let hidden = lookup(fs, "hidden"@);
    if !(title matches Some(ScalarView::Text(_))) {
        None
    } else if !(description is None || description matches Some(ScalarView::Text(_))) {
        None
    } else if !(created matches Some(ScalarView::Text(c)) && instant_of(c) is Some) {
        None
    } else if !(duration matches Some(v) && flex_span(v) is Some) {
        None
    } else if !(hidden is None || hidden matches Some(ScalarView::Null) || hidden matches Some(
        ScalarView::Bool(_),
    )) {
        None
    } else {
        Some(
            EntryView {
                id,
                title: title->0->Text_0,
                description: match description {
                    Some(ScalarView::Text(d)) => d,
                    _ => Seq::empty(),
                },
                created_at: instant_of(created->0->Text_0)->0,
                duration: flex_span(duration->0)->0,
                hidden: match hidden {
                    Some(ScalarView::Bool(b)) => Some(b),
                    _ => None,
                },
            },
        )
    }
}

/// The entry with id `id` that the text of its file describes.
pub open spec fn load_spec(id: Seq<char>, text: Seq<char>) -> Option<EntryView> {
    match object_fields(text) {
        Some(fs) => entry_spec(id, fs),
        None => None,
    }
}

/// Builds the entry with id `id` from the fields of its file's object.
pub fn entry_from_fields(id: &str, fields: &Vec<(String, Scalar)>) -> (r: Option<Entry>)
    ensures
        opt_view(r) == entry_spec(id@, fields_view(fields@)),
{
    let ghost fs = fields_view(fields@);
    let title = match find_field(fields, &String::from_str("title")) {
        Some(Scalar::Text(t)) => t,
        _ => return None,
    };
    let description = match find_field(fields, &String::from_str("description")) {
        None => String::new(),
        Some(Scalar::Text(d)) => d,
        _ => return None,
    };
    let created_at = match find_field(fields, &String::from_str("created_at")) {
        Some(Scalar::Text(c)) => match parse_instant(c.as_str()) {
            Some(t) => t,
            None => return None,
        },
        _ => return None,
    };
    let duration = match find_field(fields, &String::from_str("duration")) {
        Some(v) => match parse_duration_flex(&v) {
            Some(d) => d,
            None => return None,
        },
        None => return None,
    };
    let hidden = match find_field(fields, &String::from_str("hidden")) {
        None => None,
        Some(Scalar::Null) => None,
        Some(Scalar::Bool(b)) => Some(b),
        _ => return None,
    };
    let e = Entry { id: String::from_str(id), title, description, created_at, duration, hidden };
    assert(e@ =~= entry_spec(id@, fs)->0);
    Some(e)
}

/// Loads the entry with id `id` from the text of its file; `None` where the
/// text is not a valid entry.
pub fn get_entry(id: &str, text: &str) -> (r: Option<Entry>)
    ensures
        opt_view(r) == load_spec(id@, text@),
{
    match parse_object(text) {
        Some(fields) => entry_from_fields(id, &fields),
        None => None,
    }
}

} // verus!
