//! The event record and its provenance.
use vstd::prelude::*;

use crate::text::{lower_of, lowercase};

verus! {

/// An event in the catalog, or a candidate freshly extracted from a source.
///
/// Times are milliseconds since the Unix epoch, in UTC. `source` is the provenance: the
/// identifiers of the sources that reported the event, without duplicates up to case.
#[derive(Clone, Debug)]
pub struct Competition {
    pub id: Option<String>,
    pub name: String,
    pub date: i64,
    pub host: String,
    pub source: Vec<String>,
    pub description: Option<String>,
    pub signup_deadline: Option<i64>,
    pub location: Option<String>,
    pub registration_link: Option<String>,
    pub max_participants: Option<i64>,
    pub status: Option<String>,
}

/// A record as plain values: texts as character sequences, the provenance as a sequence of
/// them.
pub ghost struct CompetitionView {
    pub id: Option<Seq<char>>,
    pub name: Seq<char>,
    pub date: i64,
    pub host: Seq<char>,
    pub source: Seq<Seq<char>>,
    pub description: Option<Seq<char>>,
    pub signup_deadline: Option<i64>,
    pub location: Option<Seq<char>>,
    pub registration_link: Option<Seq<char>>,
    pub max_participants: Option<i64>,
    pub status: Option<Seq<char>>,
}

/// An optional text as an optional character sequence.
pub open spec fn opt_text(o: Option<String>) -> Option<Seq<char>> {
    match o {
        Some(s) => Some(s@),
        None => None,
    }
}

impl View for Competition {
    type V = CompetitionView;

    open spec fn view(&self) -> CompetitionView {
        CompetitionView {
            id: opt_text(self.id),
            name: self.name@,
            date: self.date,
            host: self.host@,
            source: self.source.deep_view(),
            description: opt_text(self.description),
            signup_deadline: self.signup_deadline,
            location: opt_text(self.location),
            registration_link: opt_text(self.registration_link),
            max_participants: self.max_participants,
            status: opt_text(self.status),
        }
    }
}

/// The record with its provenance replaced, every other field kept.
pub open spec fn with_provenance(r: CompetitionView, prov: Seq<Seq<char>>) -> CompetitionView {
    CompetitionView {
        id: r.id,
        name: r.name,
        date: r.date,
        host: r.host,
        source: prov,
        description: r.description,
        signup_deadline: r.signup_deadline,
        location: r.location,
        registration_link: r.registration_link,
        max_participants: r.max_participants,
        status: r.status,
    }
}

/// The provenance lists `s`, compared in lower case.
pub open spec fn lists_source(prov: Seq<Seq<char>>, s: Seq<char>) -> bool {
    exists|i: int| 0 <= i < prov.len() && #[trigger] lower_of(prov[i]) == lower_of(s)
}

/// The provenance after `s` has reported the event: unchanged if it already lists `s`,
/// else `s` appended.
pub open spec fn merged_provenance(prov: Seq<Seq<char>>, s: Seq<char>) -> Seq<Seq<char>> {
    if lists_source(prov, s) {
        prov
    } else {
        prov.push(s)
    }
}

/// A provenance is well formed: non-empty, and no two of its sources equal in lower case.
pub open spec fn provenance_wf(prov: Seq<Seq<char>>) -> bool {
    prov.len() > 0 && forall|i: int, j: int|
        0 <= i < j < prov.len() ==> lower_of(#[trigger] prov[i]) != lower_of(#[trigger] prov[j])
}

/// `b` is `a` with, at most, more sources at the end of its provenance.
pub open spec fn same_but_provenance(a: Competition, b: Competition) -> bool {
    &&& b.id == a.id
    &&& b.name == a.name
    &&& b.date == a.date
    &&& b.host == a.host
    &&& b.description == a.description
    &&& b.signup_deadline == a.signup_deadline
    &&& b.location == a.location
    &&& b.registration_link == a.registration_link
    &&& b.max_participants == a.max_participants
    &&& b.status == a.status
    &&& a.source.deep_view().len() <= b.source.deep_view().len()
    &&& b.source.deep_view().take(a.source.deep_view().len() as int) == a.source.deep_view()
}

/// A source listed in a provenance stays listed when sources are appended.
pub proof fn lemma_lists_source_grows(a: Seq<Seq<char>>, b: Seq<Seq<char>>, s: Seq<char>)
    requires
        a.len() <= b.len(),
        b.take(a.len() as int) == a,
        lists_source(a, s),
    ensures
        lists_source(b, s),
{
    let i = choose|i: int| 0 <= i < a.len() && #[trigger] lower_of(a[i]) == lower_of(s);
    assert(b.take(a.len() as int)[i] == b[i]);
}

impl Competition {
    /// Whether the provenance lists `source`, compared in lower case.
    pub fn has_source(&self, source: &str) -> (r: bool)
        ensures
            r == lists_source(self.source.deep_view(), source@),
    {
        let key = lowercase(source);
        let ghost prov = self.source.deep_view();
        let mut i: usize = 0;
        while i < self.source.len()
            invariant
                i <= self.source.len(),
                prov == self.source.deep_view(),
                key@ == lower_of(source@),
                forall|j: int| 0 <= j < i ==> #[trigger] lower_of(prov[j]) != lower_of(source@),
            decreases self.source.len() - i,
        {
            let k = lowercase(self.source[i].as_str());
            assert(prov[i as int] == self.source@[i as int]@);
            if k == key {
                return true;
            }
            i = i + 1;
        }
        false
    }

    /// Records that `source` reported this event: appends it to the provenance unless the
    /// provenance already lists it (compared in lower case). Nothing else changes.
    pub fn add_source(&mut self, source: &str)
        ensures
            final(self).source.deep_view() == merged_provenance(
                old(self).source.deep_view(),
                source@,
            ),
            same_but_provenance(*old(self), *final(self)),
            provenance_wf(old(self).source.deep_view()) ==> provenance_wf(
                final(self).source.deep_view(),
            ),
    {
        if !self.has_source(source) {
            let ghost before = self.source.deep_view();
            let s: String = source.to_owned();
            self.source.push(s);
            assert(self.source.deep_view() =~= before.push(source@));
            proof {
                let p = self.source.deep_view();
                assert forall|i: int, j: int|
                    0 <= i < j < p.len() && j == p.len() - 1 implies lower_of(#[trigger] p[i])
                    != lower_of(#[trigger] p[j]) by {
                    assert(p[i] == before[i]);
                }
                if provenance_wf(before) {
                    assert forall|i: int, j: int| 0 <= i < j < p.len() implies lower_of(
                        #[trigger] p[i],
                    ) != lower_of(#[trigger] p[j]) by {
                        if j < p.len() - 1 {
                            assert(p[i] == before[i]);
                            assert(p[j] == before[j]);
                        }
                    }
                }
            }
            assert(self.source.deep_view().take(before.len() as int) =~= before);
        } else {
            assert(self.source.deep_view().take(self.source.deep_view().len() as int)
                =~= self.source.deep_view());
        }
    }
}

} // verus!
