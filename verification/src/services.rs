use vstd::prelude::*;

verus! {

/// The fixed base URL that every endpoint path is appended to.
pub const BASE_URL: &'static str = "http://data.mixpanel.com/api/2.0";

/// A logical operation of the analytics API. Only the data-export
/// operation has a URL mapping; the others are a deliberately partial
/// surface, to be completed by extension.
pub enum Service {
    AnnotationsList,
    AnnotationsCreate,
    AnnotationsUpdate,
    AnnotationsDelete,
    Events,
    EventsTopToday,
    EventsHotLast31Days,
    Export,
}

/// The full URL of the export endpoint, as a sequence of characters.
pub open spec fn export_url() -> Seq<char> {
    BASE_URL@ + "/export"@
}

impl Service {
    /// True of the operations that have a URL mapping.
    pub open spec fn implemented(self) -> bool {
        self is Export
    }

    /// The URL an operation is served at. Requesting an operation with
    /// no mapping is a programming error, excluded by precondition.
    pub fn construct_url(self) -> (r: String)
        requires
            self.implemented(),
        ensures
            r@ == export_url(),
    {
        BASE_URL.to_owned().concat("/export")
    }
}

} // verus!
