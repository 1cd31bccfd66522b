//! The ingestion coordinator: resolves candidates against the catalog and commits
//! insert-or-merge decisions.
use vstd::prelude::*;

use crate::matching::{fuzzy_match, titles_match};
use crate::text::lower_of;
use crate::models::{
    lemma_lists_source_grows, lists_source, merged_provenance, provenance_wf,
    same_but_provenance, with_provenance, Competition, CompetitionView,
};

verus! {

/// What the match engine decided for a candidate: no record matches it, or the record at
/// this position of the catalog is the first that does.
#[derive(Clone, Copy, Debug, PartialEq, Eq, Structural)]
pub enum MatchDecision {
    NoMatch,
    MatchFound(usize),
}

/// A source could not be fetched.
#[derive(Clone, Debug)]
pub struct FetchError {
    pub message: String,
}

/// What one source produced in a run: its candidates, or the error that stopped its fetch.
#[derive(Debug)]
pub struct AdapterOutcome {
    pub source: String,
    pub result: Result<Vec<Competition>, FetchError>,
}

/// The counts of one batch of candidates.
#[derive(Clone, Copy, Debug, PartialEq, Eq, Structural)]
pub struct BatchSummary {
    pub inserted: usize,
    pub merged: usize,
}

/// The summary of a run: records inserted, records merged, and the sources that failed.
#[derive(Clone, Debug)]
pub struct RunSummary {
    pub inserted: usize,
    pub merged: usize,
    pub failures: Vec<String>,
}

/// The titles of the records, in catalog order.
pub open spec fn titles(cat: Seq<Competition>) -> Seq<Seq<char>> {
    cat.map_values(|c: Competition| c.name@)
}

/// Some title of `ts` matches `t`.
pub open spec fn matched(ts: Seq<Seq<char>>, t: Seq<char>) -> bool {
    exists|i: int| 0 <= i < ts.len() && #[trigger] titles_match(t, ts[i])
}

/// The candidate titles, in order, that match no title of `ts`.
pub open spec fn unmatched(ts: Seq<Seq<char>>, cands: Seq<Seq<char>>) -> Seq<Seq<char>>
    decreases cands.len(),
{
    if cands.len() == 0 {
        Seq::empty()
    } else if matched(ts, cands.last()) {
        unmatched(ts, cands.drop_last())
    } else {
        unmatched(ts, cands.drop_last()).push(cands.last())
    }
}

/// A candidate as a source produces it: a single source in its provenance.
pub open spec fn is_candidate(c: Competition) -> bool {
    c.source.len() == 1
}

/// The candidate is in the catalog: some record matches its title and lists its source.
pub open spec fn persisted(cat: Seq<Competition>, c: Competition) -> bool {
    exists|i: int|
        0 <= i < cat.len() && #[trigger] titles_match(c.name@, cat[i].name@) && lists_source(
            cat[i].source.deep_view(),
            c.source.deep_view()[0],
        )
}

/// Every record has a well-formed provenance.
pub open spec fn catalog_wf(cat: Seq<Competition>) -> bool {
    forall|i: int| 0 <= i < cat.len() ==> provenance_wf(#[trigger] cat[i].source.deep_view())
}

/// `b` is `a` with records appended and sources appended to provenances, nothing else.
pub open spec fn grows(a: Seq<Competition>, b: Seq<Competition>) -> bool {
    a.len() <= b.len() && forall|i: int| 0 <= i < a.len() ==> same_but_provenance(a[i], #[trigger] b[i])
}

/// The candidates of an outcome: none for a failed source.
pub open spec fn ok_candidates(o: AdapterOutcome) -> Seq<Competition> {
    match o.result {
        Ok(v) => v@,
        Err(_) => Seq::empty(),
    }
}

pub open spec fn batch_titles(o: AdapterOutcome) -> Seq<Seq<char>> {
    titles(ok_candidates(o))
}

/// The catalog's titles after the outcomes were ingested in order, each batch against the
/// catalog as it stood when the batch began.
pub open spec fn titles_after(ts: Seq<Seq<char>>, outs: Seq<AdapterOutcome>) -> Seq<Seq<char>>
    decreases outs.len(),
{
    if outs.len() == 0 {
        ts
    } else {
        let t = titles_after(ts, outs.drop_last());
        t + unmatched(t, batch_titles(outs.last()))
    }
}

/// How many records a run of the outcomes inserts.
pub open spec fn inserted_total(ts: Seq<Seq<char>>, outs: Seq<AdapterOutcome>) -> nat
    decreases outs.len(),
{
    if outs.len() == 0 {
        0
    } else {
        inserted_total(ts, outs.drop_last()) + unmatched(
            titles_after(ts, outs.drop_last()),
            batch_titles(outs.last()),
        ).len()
    }
}

/// How many candidates the outcomes hold.
pub open spec fn total_candidates(outs: Seq<AdapterOutcome>) -> nat
    decreases outs.len(),
{
    if outs.len() == 0 {
        0
    } else {
        total_candidates(outs.drop_last()) + ok_candidates(outs.last()).len()
    }
}

/// A count as `usize` holds it: saturated at `usize::MAX`.
pub open spec fn capped(n: int) -> int {
    if n > usize::MAX {
        usize::MAX as int
    } else {
        n
    }
}

/// The sources whose fetch failed, in order.
pub open spec fn failed_sources(outs: Seq<AdapterOutcome>) -> Seq<Seq<char>>
    decreases outs.len(),
{
    if outs.len() == 0 {
        Seq::empty()
    } else if outs.last().result is Err {
        failed_sources(outs.drop_last()).push(outs.last().source@)
    } else {
        failed_sources(outs.drop_last())
    }
}

/// The records as plain values, in catalog order.
pub open spec fn views(cat: Seq<Competition>) -> Seq<CompetitionView> {
    cat.map_values(|c: Competition| c@)
}

/// The position of the first of the first `n` records whose title matches `t`.
pub open spec fn first_match(cat: Seq<CompetitionView>, n: int, t: Seq<char>) -> Option<int>
    decreases n,
{
    if n <= 0 {
        None
    } else {
        match first_match(cat, n - 1, t) {
            Some(i) => Some(i),
            None => if titles_match(t, cat[n - 1].name) {
                Some(n - 1)
            } else {
                None
            },
        }
    }
}

/// The catalog after one candidate: the first of the first `limit` records that matches it
/// gets the candidate's source merged into its provenance and nothing else changes; without
/// such a record the candidate is appended as it is.
pub open spec fn apply_candidate(cat: Seq<CompetitionView>, limit: int, c: CompetitionView) -> Seq<
    CompetitionView,
> {
    match first_match(cat, limit, c.name) {
        Some(i) => cat.update(
            i,
            with_provenance(cat[i], merged_provenance(cat[i].source, c.source[0])),
        ),
        None => cat.push(c),
    }
}

/// The catalog after the candidates, applied in order, each resolved among the first
/// `limit` records.
pub open spec fn merged_from(cat: Seq<CompetitionView>, limit: int, cands: Seq<CompetitionView>) -> Seq<
    CompetitionView,
>
    decreases cands.len(),
{
    if cands.len() == 0 {
        cat
    } else {
        apply_candidate(merged_from(cat, limit, cands.drop_last()), limit, cands.last())
    }
}

/// The catalog after one batch: candidates resolved against the records the batch began
/// with.
pub open spec fn merged_catalog(cat: Seq<CompetitionView>, cands: Seq<CompetitionView>) -> Seq<
    CompetitionView,
> {
    merged_from(cat, cat.len() as int, cands)
}

/// The catalog after a run: each outcome's candidates merged in turn; a failed source
/// changes nothing.
pub open spec fn catalog_after(cat: Seq<CompetitionView>, outs: Seq<AdapterOutcome>) -> Seq<
    CompetitionView,
>
    decreases outs.len(),
{
    if outs.len() == 0 {
        cat
    } else {
        merged_catalog(catalog_after(cat, outs.drop_last()), views(ok_candidates(outs.last())))
    }
}

proof fn lemma_first_match(cat: Seq<CompetitionView>, n: int, t: Seq<char>)
    requires
        0 <= n <= cat.len(),
    ensures
        match first_match(cat, n, t) {
            Some(i) => 0 <= i < n && titles_match(t, cat[i].name) && forall|j: int|
                0 <= j < i ==> !#[trigger] titles_match(t, cat[j].name),
            None => forall|j: int| 0 <= j < n ==> !#[trigger] titles_match(t, cat[j].name),
        },
    decreases n,
{
    if n > 0 {
        lemma_first_match(cat, n - 1, t);
    }
}

/// Finds the first of the first `limit` records whose title matches `name`.
pub fn resolve(name: &str, catalog: &Vec<Competition>, limit: usize) -> (r: MatchDecision)
    requires
        limit <= catalog.len(),
    ensures
        match r {
            MatchDecision::MatchFound(i) => i < limit && titles_match(name@, catalog@[i as int].name@)
                && forall|j: int| 0 <= j < i ==> !#[trigger] titles_match(name@, catalog@[j].name@),
            MatchDecision::NoMatch => forall|j: int|
                0 <= j < limit ==> !#[trigger] titles_match(name@, catalog@[j].name@),
        },
{
    let mut i: usize = 0;
    while i < limit
        invariant
            i <= limit <= catalog.len(),
            forall|j: int| 0 <= j < i ==> !#[trigger] titles_match(name@, catalog@[j].name@),
        decreases limit - i,
    {
        if fuzzy_match(name, catalog[i].name.as_str()) {
            return MatchDecision::MatchFound(i);
        }
        i = i + 1;
    }
    MatchDecision::NoMatch
}

/// Whether some record of the catalog matches the candidate's title.
pub fn is_duplicate_competition(catalog: &Vec<Competition>, new_comp: &Competition) -> (r: bool)
    ensures
        r == matched(titles(catalog@), new_comp.name@),
{
    let d = resolve(new_comp.name.as_str(), catalog, catalog.len());
    match d {
        MatchDecision::MatchFound(i) => {
            assert(titles(catalog@)[i as int] == catalog@[i as int].name@);
            true
        },
        MatchDecision::NoMatch => {
            proof {
                if matched(titles(catalog@), new_comp.name@) {
                    let j = choose|j: int|
                        0 <= j < titles(catalog@).len() && #[trigger] titles_match(
                            new_comp.name@,
                            titles(catalog@)[j],
                        );
                    assert(titles(catalog@)[j] == catalog@[j].name@);
                }
            }
            false
        },
    }
}

proof fn lemma_same_but_provenance_trans(a: Competition, b: Competition, c: Competition)
    requires
        same_but_provenance(a, b),
        same_but_provenance(b, c),
    ensures
        same_but_provenance(a, c),
{
    let (pa, pb, pc) = (a.source.deep_view(), b.source.deep_view(), c.source.deep_view());
    assert(pc.take(pa.len() as int) =~= pc.take(pb.len() as int).take(pa.len() as int));
}

proof fn lemma_persisted_grows(a: Seq<Competition>, b: Seq<Competition>, c: Competition)
    requires
        grows(a, b),
        persisted(a, c),
    ensures
        persisted(b, c),
{
    let i = choose|i: int|
        0 <= i < a.len() && #[trigger] titles_match(c.name@, a[i].name@) && lists_source(
            a[i].source.deep_view(),
            c.source.deep_view()[0],
        );
    assert(same_but_provenance(a[i], b[i]));
    lemma_lists_source_grows(a[i].source.deep_view(), b[i].source.deep_view(), c.source.deep_view()[0]);
    assert(titles_match(c.name@, b[i].name@));
}

proof fn lemma_grows_trans(a: Seq<Competition>, b: Seq<Competition>, c: Seq<Competition>)
    requires
        grows(a, b),
        grows(b, c),
    ensures
        grows(a, c),
{
    assert forall|i: int| 0 <= i < a.len() implies same_but_provenance(a[i], #[trigger] c[i]) by {
        assert(same_but_provenance(a[i], b[i]));
        assert(same_but_provenance(b[i], c[i]));
        lemma_same_but_provenance_trans(a[i], b[i], c[i]);
    }
}

proof fn lemma_grows_refl(a: Seq<Competition>)
    ensures
        grows(a, a),
{
    assert forall|i: int| 0 <= i < a.len() implies same_but_provenance(a[i], #[trigger] a[i]) by {
        let p = a[i].source.deep_view();
        assert(p.take(p.len() as int) =~= p);
    }
}

proof fn lemma_matched_extends(ts: Seq<Seq<char>>, more: Seq<Seq<char>>, t: Seq<char>)
    requires
        matched(ts, t),
    ensures
        matched(ts + more, t),
{
    let i = choose|i: int| 0 <= i < ts.len() && #[trigger] titles_match(t, ts[i]);
    assert((ts + more)[i] == ts[i]);
}

/// Ingests one source's candidates: each is resolved against the catalog as it stood when
/// the batch began; a match gets the candidate's source merged into its provenance, and a
/// candidate without a match is appended as a new record.
pub fn ingest_batch(catalog: &mut Vec<Competition>, candidates: Vec<Competition>) -> (r:
    BatchSummary)
    requires
        forall|j: int| 0 <= j < candidates@.len() ==> is_candidate(#[trigger] candidates@[j]),
    ensures
        r.inserted == unmatched(titles(old(catalog)@), titles(candidates@)).len(),
        r.inserted + r.merged == candidates@.len(),
        titles(final(catalog)@) == titles(old(catalog)@) + unmatched(
            titles(old(catalog)@),
            titles(candidates@),
        ),
        grows(old(catalog)@, final(catalog)@),
        forall|j: int|
            0 <= j < candidates@.len() ==> persisted(final(catalog)@, #[trigger] candidates@[j]),
        catalog_wf(old(catalog)@) ==> catalog_wf(final(catalog)@),
        views(final(catalog)@) == merged_catalog(views(old(catalog)@), views(candidates@)),
{
    let ghost cands = candidates@;
    let ghost start = catalog@;
    let ghost ts = titles(start);
    let n0 = catalog.len();
    let total = candidates.len();
    let mut rest = candidates;
    let mut inserted: usize = 0;
    let mut merged: usize = 0;
    let mut j: usize = 0;
    proof {
        lemma_grows_refl(start);
        assert(cands.skip(0) =~= cands);
        assert(titles(cands.take(0)) =~= Seq::<Seq<char>>::empty());
        assert(ts + Seq::<Seq<char>>::empty() =~= ts);
        assert(views(cands.take(0)) =~= Seq::<CompetitionView>::empty());
    }
    while rest.len() > 0
        invariant
            n0 == start.len(),
            total == cands.len(),
            j + rest@.len() == cands.len(),
            rest@ == cands.skip(j as int),
            ts == titles(start),
            forall|k: int| 0 <= k < cands.len() ==> is_candidate(#[trigger] cands[k]),
            catalog@.len() == n0 + inserted,
            inserted == unmatched(ts, titles(cands.take(j as int))).len(),
            inserted + merged == j,
            titles(catalog@) == ts + unmatched(ts, titles(cands.take(j as int))),
            grows(start, catalog@),
            forall|k: int| 0 <= k < j ==> persisted(catalog@, #[trigger] cands[k]),
            catalog_wf(start) ==> catalog_wf(catalog@),
            views(catalog@) == merged_from(views(start), n0 as int, views(cands.take(j as int))),
        decreases rest@.len(),
    {
        let c = rest.remove(0);
        assert(c == cands[j as int]);
        proof {
            let vj = views(cands.take(j as int + 1));
            assert(vj.drop_last() =~= views(cands.take(j as int)));
            assert(vj.last() == c@);
        }
        let ghost before = catalog@;
        let ghost cj = titles(cands.take(j as int + 1));
        assert(cj.drop_last() =~= titles(cands.take(j as int)));
        assert(cj.last() == c.name@);
        proof {
            assert forall|i: int| 0 <= i < n0 implies #[trigger] titles(before)[i] == ts[i] by {
                assert(titles(before)[i] == (ts + unmatched(ts, titles(cands.take(j as int))))[i]);
            }
        }
        let d = resolve(c.name.as_str(), catalog, n0);
        match d {
            MatchDecision::MatchFound(i) => {
                let mut rec = catalog.remove(i);
                rec.add_source(c.source[0].as_str());
                catalog.insert(i, rec);
                merged = merged + 1;
                proof {
                    assert(catalog@ =~= before.update(i as int, rec));
                    let prev = views(before);
                    lemma_first_match(prev, n0 as int, c.name@);
                    assert(prev[i as int].name == before[i as int].name@);
                    match first_match(prev, n0 as int, c.name@) {
                        Some(i2) => {
                            assert(prev[i2].name == before[i2].name@);
                            if i2 < i {
                                assert(!titles_match(c.name@, before[i2].name@));
                            }
                            assert(i2 == i);
                        },
                        None => {
                            assert(!titles_match(c.name@, prev[i as int].name));
                        },
                    }
                    assert(c@.source[0] == c.source@[0]@);
                    assert(rec@ == with_provenance(
                        prev[i as int],
                        merged_provenance(prev[i as int].source, c@.source[0]),
                    ));
                    assert(views(catalog@) =~= apply_candidate(prev, n0 as int, c@));
                    if catalog_wf(start) {
                        assert(provenance_wf(before[i as int].source.deep_view()));
                        assert forall|x: int| 0 <= x < catalog@.len() implies provenance_wf(
                            #[trigger] catalog@[x].source.deep_view(),
                        ) by {
                            if x != i {
                                assert(catalog@[x] == before[x]);
                            }
                        }
                    }
                    assert(titles(before)[i as int] == ts[i as int]);
                    assert(matched(ts, c.name@));
                    assert(titles(catalog@) =~= titles(before));
                    assert(grows(before, catalog@)) by {
                        lemma_grows_refl(before);
                    }
                    lemma_grows_trans(start, before, catalog@);
                    assert forall|k: int| 0 <= k < j + 1 implies persisted(
                        catalog@,
                        #[trigger] cands[k],
                    ) by {
                        if k < j {
                            lemma_persisted_grows(before, catalog@, cands[k]);
                        } else {
                            let s = c.source.deep_view()[0];
                            assert(c.source@[0]@ == s);
                            let p = rec.source.deep_view();
                            assert(p == merged_provenance(before[i as int].source.deep_view(), s));
                            if !lists_source(before[i as int].source.deep_view(), s) {
                                assert(p[p.len() - 1] == s);
                                assert(lower_of(p[p.len() - 1]) == lower_of(s));
                            }
                            assert(lists_source(p, s));
                            assert(titles_match(c.name@, catalog@[i as int].name@));
                        }
                    }
                }
            },
            MatchDecision::NoMatch => {
                let ghost cv = c;
                catalog.push(c);
                inserted = inserted + 1;
                proof {
                    let prev = views(before);
                    lemma_first_match(prev, n0 as int, cv.name@);
                    if let Some(i2) = first_match(prev, n0 as int, cv.name@) {
                        assert(prev[i2].name == before[i2].name@);
                        assert(!titles_match(cv.name@, before[i2].name@));
                    }
                    assert(views(catalog@) =~= apply_candidate(prev, n0 as int, cv@));
                    assert(!matched(ts, cv.name@)) by {
                        if matched(ts, cv.name@) {
                            let x = choose|x: int|
                                0 <= x < ts.len() && #[trigger] titles_match(cv.name@, ts[x]);
                            assert(titles(before)[x] == ts[x]);
                            assert(titles(before)[x] == before[x].name@);
                        }
                    }
                    assert(titles(catalog@) =~= titles(before).push(cv.name@));
                    if catalog_wf(start) {
                        assert(is_candidate(cands[j as int]));
                        assert forall|x: int| 0 <= x < catalog@.len() implies provenance_wf(
                            #[trigger] catalog@[x].source.deep_view(),
                        ) by {
                            if x < before.len() {
                                assert(catalog@[x] == before[x]);
                            } else {
                                assert(catalog@[x] == cv);
                            }
                        }
                    }
                    assert(grows(before, catalog@)) by {
                        assert forall|x: int| 0 <= x < before.len() implies same_but_provenance(
                            before[x],
                            #[trigger] catalog@[x],
                        ) by {
                            let p = before[x].source.deep_view();
                            assert(p.take(p.len() as int) =~= p);
                        }
                    }
                    lemma_grows_trans(start, before, catalog@);
                    assert forall|k: int| 0 <= k < j + 1 implies persisted(
                        catalog@,
                        #[trigger] cands[k],
                    ) by {
                        if k < j {
                            lemma_persisted_grows(before, catalog@, cands[k]);
                        } else {
                            let last = catalog@.len() - 1;
                            assert(catalog@[last] == cv);
                            assert(titles_match(cv.name@, catalog@[last].name@));
                            assert(is_candidate(cands[j as int]));
                            assert(cv.source.deep_view().len() == 1);
                            assert(lower_of(cv.source.deep_view()[0]) == lower_of(
                                cv.source.deep_view()[0],
                            ));
                            assert(lists_source(cv.source.deep_view(), cv.source.deep_view()[0]));
                        }
                    }
                }
            },
        }
        proof {
            assert(rest@ =~= cands.skip(j as int + 1));
        }
        j = j + 1;
    }
    proof {
        assert(cands.take(j as int) =~= cands);
    }
    BatchSummary { inserted, merged }
}

/// Runs ingestion over every source's outcome in order. A failed source is recorded and
/// the run goes on: the candidates of every other source still reach the catalog, and a
/// failed source changes no record. The merged count saturates at `usize::MAX`.
pub fn run_all(catalog: &mut Vec<Competition>, outcomes: Vec<AdapterOutcome>) -> (r: RunSummary)
    requires
        forall|k: int, j: int|
            0 <= k < outcomes@.len() && 0 <= j < ok_candidates(outcomes@[k]).len()
                ==> is_candidate(#[trigger] ok_candidates(outcomes@[k])[j]),
    ensures
        r.inserted == inserted_total(titles(old(catalog)@), outcomes@),
        r.inserted <= total_candidates(outcomes@),
        r.merged == capped(total_candidates(outcomes@) - r.inserted),
        r.failures.deep_view() == failed_sources(outcomes@),
        titles(final(catalog)@) == titles_after(titles(old(catalog)@), outcomes@),
        grows(old(catalog)@, final(catalog)@),
        forall|k: int, j: int|
            0 <= k < outcomes@.len() && 0 <= j < ok_candidates(outcomes@[k]).len() ==> persisted(
                final(catalog)@,
                #[trigger] ok_candidates(outcomes@[k])[j],
            ),
        catalog_wf(old(catalog)@) ==> catalog_wf(final(catalog)@),
        views(final(catalog)@) == catalog_after(views(old(catalog)@), outcomes@),
{
    let ghost outs = outcomes@;
    let ghost start = catalog@;
    let ghost ts = titles(start);
    let count = outcomes.len();
    let mut rest = outcomes;
    let mut inserted: usize = 0;
    let mut merged: usize = 0;
    let mut failures: Vec<String> = Vec::new();
    let mut k: usize = 0;
    proof {
        lemma_grows_refl(start);
        assert(outs.skip(0) =~= outs);
        assert(outs.take(0) =~= Seq::<AdapterOutcome>::empty());
        assert(failures.deep_view() =~= Seq::<Seq<char>>::empty());
    }
    while rest.len() > 0
        invariant
            count == outs.len(),
            k + rest@.len() == outs.len(),
            rest@ == outs.skip(k as int),
            ts == titles(start),
            forall|k2: int, j: int|
                0 <= k2 < outs.len() && 0 <= j < ok_candidates(outs[k2]).len() ==> is_candidate(
                    #[trigger] ok_candidates(outs[k2])[j],
                ),
            inserted == inserted_total(ts, outs.take(k as int)),
            catalog@.len() == start.len() + inserted,
            inserted <= total_candidates(outs.take(k as int)),
            merged == capped(total_candidates(outs.take(k as int)) - inserted),
            failures.deep_view() == failed_sources(outs.take(k as int)),
            titles(catalog@) == titles_after(ts, outs.take(k as int)),
            grows(start, catalog@),
            forall|k2: int, j: int|
                0 <= k2 < k && 0 <= j < ok_candidates(outs[k2]).len() ==> persisted(
                    catalog@,
                    #[trigger] ok_candidates(outs[k2])[j],
                ),
            catalog_wf(start) ==> catalog_wf(catalog@),
            views(catalog@) == catalog_after(views(start), outs.take(k as int)),
        decreases rest@.len(),
    {
        let o = rest.remove(0);
        assert(o == outs[k as int]);
        let ghost pre = outs.take(k as int + 1);
        assert(pre.drop_last() =~= outs.take(k as int));
        assert(pre.last() == o);
        let ghost before = catalog@;
        let AdapterOutcome { source, result } = o;
        match result {
            Ok(cands) => {
                let ghost cs = cands@;
                assert(cs == ok_candidates(outs[k as int]));
                let b = ingest_batch(catalog, cands);
                let size = catalog.len();
                assert(size == catalog@.len());
                assert(titles(catalog@).len() == catalog@.len());
                assert(titles(before).len() == before.len());
                inserted = inserted + b.inserted;
                merged = merged.saturating_add(b.merged);
                proof {
                    lemma_grows_trans(start, before, catalog@);
                    assert forall|k2: int, j: int|
                        0 <= k2 < k + 1 && 0 <= j < ok_candidates(outs[k2]).len() implies persisted(
                        catalog@,
                        #[trigger] ok_candidates(outs[k2])[j],
                    ) by {
                        if k2 < k {
                            lemma_persisted_grows(before, catalog@, ok_candidates(outs[k2])[j]);
                        } else {
                            assert(persisted(catalog@, cs[j]));
                        }
                    }
                }
            },
            Err(_) => {
                let ghost fb = failures.deep_view();
                failures.push(source);
                proof {
                    assert(failures.deep_view() =~= fb.push(o.source@));
                    lemma_grows_refl(before);
                    assert(unmatched(titles(before), Seq::<Seq<char>>::empty()) =~= Seq::<
                        Seq<char>,
                    >::empty());
                    assert(titles(before) + Seq::<Seq<char>>::empty() =~= titles(before));
                    assert(batch_titles(o) =~= Seq::<Seq<char>>::empty());
                    assert(views(ok_candidates(o)) =~= Seq::<CompetitionView>::empty());
                }
            },
        }
        proof {
            assert(rest@ =~= outs.skip(k as int + 1));
        }
        k = k + 1;
    }
    proof {
        assert(outs.take(k as int) =~= outs);
    }
    RunSummary { inserted, merged, failures }
}

proof fn lemma_matched_prefix(a: Seq<Seq<char>>, b: Seq<Seq<char>>, x: Seq<char>)
    requires
        a.len() <= b.len(),
        b.take(a.len() as int) == a,
        matched(a, x),
    ensures
        matched(b, x),
{
    let i = choose|i: int| 0 <= i < a.len() && #[trigger] titles_match(x, a[i]);
    assert(b.take(a.len() as int)[i] == b[i]);
}

proof fn lemma_unmatched_covers(ts: Seq<Seq<char>>, cands: Seq<Seq<char>>)
    ensures
        forall|j: int|
            0 <= j < cands.len() ==> matched(ts + unmatched(ts, cands), #[trigger] cands[j]),
    decreases cands.len(),
{
    if cands.len() > 0 {
        let cs = cands.drop_last();
        let c = cands.last();
        lemma_unmatched_covers(ts, cs);
        let small = ts + unmatched(ts, cs);
        let big = ts + unmatched(ts, cands);
        assert(big.take(small.len() as int) =~= small);
        assert forall|j: int| 0 <= j < cands.len() implies matched(big, #[trigger] cands[j]) by {
            if j < cands.len() - 1 {
                assert(cands[j] == cs[j]);
                lemma_matched_prefix(small, big, cs[j]);
            } else if matched(ts, c) {
                assert(big.take(ts.len() as int) =~= ts);
                lemma_matched_prefix(ts, big, c);
            } else {
                assert(big[big.len() - 1] == c);
                assert(titles_match(c, big[big.len() - 1]));
            }
        }
    }
}

proof fn lemma_titles_after_prefix(ts: Seq<Seq<char>>, outs: Seq<AdapterOutcome>)
    ensures
        ts.len() <= titles_after(ts, outs).len(),
        titles_after(ts, outs).take(ts.len() as int) == ts,
    decreases outs.len(),
{
    if outs.len() == 0 {
        assert(ts.take(ts.len() as int) =~= ts);
    } else {
        lemma_titles_after_prefix(ts, outs.drop_last());
        let t = titles_after(ts, outs.drop_last());
        assert((t + unmatched(t, batch_titles(outs.last()))).take(ts.len() as int) =~= t.take(
            ts.len() as int,
        ));
    }
}

proof fn lemma_all_matched_after(ts: Seq<Seq<char>>, outs: Seq<AdapterOutcome>)
    ensures
        forall|k: int, j: int|
            0 <= k < outs.len() && 0 <= j < batch_titles(outs[k]).len() ==> matched(
                titles_after(ts, outs),
                #[trigger] batch_titles(outs[k])[j],
            ),
    decreases outs.len(),
{
    if outs.len() > 0 {
        let d = outs.drop_last();
        lemma_all_matched_after(ts, d);
        let t = titles_after(ts, d);
        let full = titles_after(ts, outs);
        let bl = batch_titles(outs.last());
        lemma_unmatched_covers(t, bl);
        assert(full.take(t.len() as int) =~= t);
        assert forall|k: int, j: int|
            0 <= k < outs.len() && 0 <= j < batch_titles(outs[k]).len() implies matched(
            full,
            #[trigger] batch_titles(outs[k])[j],
        ) by {
            if k < outs.len() - 1 {
                assert(outs[k] == d[k]);
                lemma_matched_prefix(t, full, batch_titles(d[k])[j]);
            } else {
                assert(outs[k] == outs.last());
                assert(matched(full, bl[j]));
            }
        }
    }
}

proof fn lemma_unmatched_empty(ts: Seq<Seq<char>>, cands: Seq<Seq<char>>)
    requires
        forall|j: int| 0 <= j < cands.len() ==> matched(ts, #[trigger] cands[j]),
    ensures
        unmatched(ts, cands).len() == 0,
    decreases cands.len(),
{
    if cands.len() > 0 {
        let cs = cands.drop_last();
        assert forall|j: int| 0 <= j < cs.len() implies matched(ts, #[trigger] cs[j]) by {
            assert(cs[j] == cands[j]);
        }
        lemma_unmatched_empty(ts, cs);
        assert(matched(ts, cands[cands.len() - 1]));
    }
}

proof fn lemma_no_inserts_when_all_matched(t: Seq<Seq<char>>, outs: Seq<AdapterOutcome>)
    requires
        forall|k: int, j: int|
            0 <= k < outs.len() && 0 <= j < batch_titles(outs[k]).len() ==> matched(
                t,
                #[trigger] batch_titles(outs[k])[j],
            ),
    ensures
        inserted_total(t, outs) == 0,
    decreases outs.len(),
{
    if outs.len() > 0 {
        let d = outs.drop_last();
        assert forall|k: int, j: int|
            0 <= k < d.len() && 0 <= j < batch_titles(d[k]).len() implies matched(
            t,
            #[trigger] batch_titles(d[k])[j],
        ) by {
            assert(d[k] == outs[k]);
        }
        lemma_no_inserts_when_all_matched(t, d);
        let ta = titles_after(t, d);
        lemma_titles_after_prefix(t, d);
        let bl = batch_titles(outs.last());
        assert forall|j: int| 0 <= j < bl.len() implies matched(ta, #[trigger] bl[j]) by {
            assert(outs.last() == outs[outs.len() - 1]);
            assert(matched(t, batch_titles(outs[outs.len() - 1])[j]));
            lemma_matched_prefix(t, ta, bl[j]);
        }
        lemma_unmatched_empty(ta, bl);
    }
}

/// Ingesting the same upstream content a second time inserts nothing: after a run, every
/// candidate of every successful source matches a record of the catalog, so a second run
/// whose sources yield the same titles merges each candidate and inserts none.
pub proof fn lemma_rerun_inserts_nothing(
    ts: Seq<Seq<char>>,
    outs: Seq<AdapterOutcome>,
    again: Seq<AdapterOutcome>,
)
    requires
        again.len() == outs.len(),
        forall|k: int| 0 <= k < outs.len() ==> batch_titles(#[trigger] again[k]) == batch_titles(
            outs[k],
        ),
    ensures
        inserted_total(titles_after(ts, outs), again) == 0,
{
    let t = titles_after(ts, outs);
    lemma_all_matched_after(ts, outs);
    assert forall|k: int, j: int|
        0 <= k < again.len() && 0 <= j < batch_titles(again[k]).len() implies matched(
        t,
        #[trigger] batch_titles(again[k])[j],
    ) by {
        assert(batch_titles(again[k]) == batch_titles(outs[k]));
        assert(matched(t, batch_titles(outs[k])[j]));
    }
    lemma_no_inserts_when_all_matched(t, again);
}

} // verus!
