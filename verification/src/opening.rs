//! Opening book: names of well-known openings, keyed by the piece placement
//! (the first FEN field) of the position they reach.
use vstd::prelude::*;
use crate::text::chars_eq_str;

verus! {

#[verifier::external_type_specification]
#[verifier::external_body]
pub struct ExJsonError(serde_json::Error);

/// What `serde_json` reads from `text` as a JSON object whose values are all
/// strings: its (key, value) pairs in ascending key order, or nothing when
/// the text is not such an object.
pub uninterp spec fn json_string_object(text: Seq<char>) -> Option<Seq<(Seq<char>, Seq<char>)>>;

/// Reads a JSON object of strings.
///
/// Trusted: calls `serde_json::from_str` into a `BTreeMap<String, String>`
/// and lists the map's pairs. The contract only says that the outcome is
/// the one named by `json_string_object` for the text, whatever it is.
#[verifier::external_body]
fn parse_json_object(text: &str) -> (r: Result<Vec<(String, String)>, serde_json::Error>)
    ensures
        match r {
            Ok(v) => json_string_object(text@) == Some(v.deep_view()),
            Err(_) => json_string_object(text@) is None,
        },
{
    match serde_json::from_str::<std::collections::BTreeMap<String, String>>(text) {
        Ok(m) => Ok(m.into_iter().collect()),
        Err(e) => Err(e),
    }
}

/// The message of a JSON error.
///
/// Trusted: formats the error with its `Display` impl from `serde_json`;
/// nothing is stated of the text.
#[verifier::external_body]
pub(crate) fn json_error_text(e: &serde_json::Error) -> (s: String)
{
    format!("{e}")
}

/// The built-in opening table, as JSON: piece placement to opening name.
pub const BUILTIN_OPENINGS_JSON: &'static str = "{\"rnbqkbnr/pppppppp/8/8/4P3/8/PPPP1PPP/RNBQKBNR\": \"King's Pawn Game\", \"rnbqkbnr/pppppppp/8/8/3P4/8/PPP1PPPP/RNBQKBNR\": \"Queen's Pawn Game\", \"rnbqkbnr/pp1ppppp/8/2p5/4P3/8/PPPP1PPP/RNBQKBNR\": \"Sicilian Defense\", \"rnbqkbnr/ppp2ppp/3p4/4p3/4P3/5N2/PPPP1PPP/RNBQKB1R\": \"Philidor Defense\", \"r1bqkbnr/pppp1ppp/2n5/1B2p3/4P3/5N2/PPPP1PPP/RNBQK2R\": \"Ruy Lopez\"}";

/// A table of opening names keyed by piece placement.
pub struct OpeningBook {
    entries: Vec<(String, String)>,
}

impl OpeningBook {
    /// The (placement, name) pairs of the book, in order.
    pub closed spec fn entries_view(&self) -> Seq<(Seq<char>, Seq<char>)> {
        self.entries.deep_view()
    }

    /// A book with no openings.
    pub fn empty() -> (b: Self)
        ensures
            b.entries_view() == Seq::<(Seq<char>, Seq<char>)>::empty(),
    {
        let b = Self { entries: Vec::new() };
        assert(b.entries.deep_view() =~= Seq::<(Seq<char>, Seq<char>)>::empty());
        b
    }

    /// Reads a book from a JSON object mapping piece placements to names.
    pub fn from_json(json: &str) -> (r: Result<Self, serde_json::Error>)
        ensures
            match json_string_object(json@) {
                Some(pairs) => r matches Ok(b) && b.entries_view() == pairs,
                None => r is Err,
            },
    {
        match parse_json_object(json) {
            Ok(entries) => Ok(Self { entries }),
            Err(e) => Err(e),
        }
    }

    /// The name of the first entry whose placement is `placement`.
    pub open spec fn lookup_spec(entries: Seq<(Seq<char>, Seq<char>)>, placement: Seq<char>) -> Option<Seq<char>>
        decreases entries.len(),
    {
        if entries.len() == 0 {
            None
        } else if entries[0].0 == placement {
            Some(entries[0].1)
        } else {
            Self::lookup_spec(entries.drop_first(), placement)
        }
    }

    /// Returns the name of the opening whose piece placement is `placement`.
    pub fn lookup(&self, placement: &str) -> (r: Option<&str>)
        ensures
            match Self::lookup_spec(self.entries_view(), placement@) {
                Some(name) => r matches Some(s) && s@ == name,
                None => r is None,
            },
    {
        let ghost ev = self.entries.deep_view();
        let mut i: usize = 0;
        assert(ev.subrange(0, ev.len() as int) =~= ev);
        while i < self.entries.len()
            invariant
                i <= self.entries@.len(),
                ev == self.entries.deep_view(),
                Self::lookup_spec(ev, placement@) == Self::lookup_spec(ev.subrange(i as int, ev.len() as int), placement@),
            decreases self.entries@.len() - i,
        {
            let ghost sub = ev.subrange(i as int, ev.len() as int);
            assert(sub[0] == (self.entries@[i as int].0@, self.entries@[i as int].1@));
            assert(sub.drop_first() =~= ev.subrange(i + 1, ev.len() as int));
            let key = crate::text::chars_of_string(&self.entries[i].0);
            if chars_eq_str(key.as_slice(), placement) {
                return Some(self.entries[i].1.as_str());
            }
            i = i + 1;
        }
        None
    }
}

} // verus!
