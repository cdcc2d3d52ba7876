use vstd::prelude::*;

use crate::message::{ErrorType, ReportMessage, TaskResult, UserResult};
use crate::stats::{
    bump_table, lemma_bump_table_at, lemma_table_entry_le_total, lemma_table_total_insert,
    lemma_table_total_update, table_sorted, table_total, table_wf,
};

verus! {

// ---------------------------------------------------------------------------
// Error-kind counters: an association list from error kind to count.
// ---------------------------------------------------------------------------

/// The count recorded for kind `t` (zero when the kind is absent).
pub open spec fn et_count(e: Seq<(ErrorType, usize)>, t: ErrorType) -> int
    decreases e.len(),
{
    if e.len() == 0 {
        0
    } else {
        (if e[0].0 == t {
            e[0].1 as int
        } else {
            0
        }) + et_count(e.skip(1), t)
    }
}

/// The total number of errors the kind counters account for.
pub open spec fn et_total(e: Seq<(ErrorType, usize)>) -> int
    decreases e.len(),
{
    if e.len() == 0 {
        0
    } else {
        e[0].1 + et_total(e.skip(1))
    }
}

/// Each kind appears at most once and every counter is positive.
pub open spec fn et_wf(e: Seq<(ErrorType, usize)>) -> bool {
    (forall|i: int, j: int| 0 <= i < j < e.len() ==> e[i].0 != e[j].0) && (forall|i: int|
        0 <= i < e.len() ==> e[i].1 >= 1)
}

/// One more error of kind `t`: increment its counter, or append a fresh one.
pub open spec fn bump_et(e: Seq<(ErrorType, usize)>, t: ErrorType) -> Seq<(ErrorType, usize)>
    decreases e.len(),
{
    if e.len() == 0 {
        seq![(t, 1usize)]
    } else if e[0].0 == t {
        seq![(e[0].0, (e[0].1 + 1) as usize)] + e.skip(1)
    } else {
        seq![e[0]] + bump_et(e.skip(1), t)
    }
}

// ---------------------------------------------------------------------------
// Per-endpoint statistics and their mathematical model.
// ---------------------------------------------------------------------------

/// Everything recorded for one endpoint id: the request and error tallies,
/// the error-kind counters and the duration frequency table of the
/// successful requests.
pub struct UrlResults {
    pub num_of_requests: usize,
    pub durations: Vec<(usize, usize)>,
    pub num_of_errors: usize,
    pub error_types: Vec<(ErrorType, usize)>,
}

/// The mathematical content of a `UrlResults`.
pub ghost struct EndpointModel {
    pub requests: int,
    pub errors: int,
    pub durations: Seq<(usize, usize)>,
    pub error_types: Seq<(ErrorType, usize)>,
}

pub open spec fn endpoint_model(u: UrlResults) -> EndpointModel {
    EndpointModel {
        requests: u.num_of_requests as int,
        errors: u.num_of_errors as int,
        durations: u.durations@,
        error_types: u.error_types@,
    }
}

pub open spec fn empty_endpoint_model() -> EndpointModel {
    EndpointModel {
        requests: 0,
        errors: 0,
        durations: Seq::empty(),
        error_types: Seq::empty(),
    }
}

/// Well-formedness of an endpoint's tallies: tables are well formed, the
/// error counters account for exactly `num_of_errors`, and every request is
/// accounted for either as an error or as a duration sample.
pub open spec fn url_results_wf(u: UrlResults) -> bool {
    &&& table_wf(u.durations@)
    &&& et_wf(u.error_types@)
    &&& u.num_of_requests == u.num_of_errors + table_total(u.durations@)
    &&& u.num_of_errors == et_total(u.error_types@)
}

/// Folding one task result into an endpoint's tallies: the request count
/// always grows by one; an error feeds the error side, a success feeds the
/// duration table.
pub open spec fn record_result(m: EndpointModel, r: TaskResult) -> EndpointModel {
    if r.error {
        EndpointModel {
            requests: m.requests + 1,
            errors: m.errors + 1,
            durations: m.durations,
            error_types: bump_et(m.error_types, r.error_type),
        }
    } else {
        EndpointModel {
            requests: m.requests + 1,
            errors: m.errors,
            durations: bump_table(m.durations, r.duration),
            error_types: m.error_types,
        }
    }
}

// ---------------------------------------------------------------------------
// The per-endpoint map and the aggregation fold.
// ---------------------------------------------------------------------------

/// The mathematical content of the endpoint map: the ordered association
/// list from endpoint id to its model.
pub open spec fn map_model(m: Seq<(String, UrlResults)>) -> Seq<(Seq<char>, EndpointModel)> {
    Seq::new(m.len(), |i: int| (m[i].0@, endpoint_model(m[i].1)))
}

/// The first position holding key `k`, or -1 when the key is absent.
pub open spec fn find_key(m: Seq<(Seq<char>, EndpointModel)>, k: Seq<char>) -> int
    decreases m.len(),
{
    if m.len() == 0 {
        -1
    } else if m[0].0 == k {
        0
    } else if find_key(m.skip(1), k) == -1 {
        -1
    } else {
        find_key(m.skip(1), k) + 1
    }
}

/// Folding one task result into the endpoint map: locate or create the
/// entry for its id and record the result there.
pub open spec fn agg_step(m: Seq<(Seq<char>, EndpointModel)>, r: TaskResult) -> Seq<
    (Seq<char>, EndpointModel),
> {
    let i = find_key(m, r.id@);
    if i == -1 {
        m.push((r.id@, record_result(empty_endpoint_model(), r)))
    } else {
        m.update(i, (m[i].0, record_result(m[i].1, r)))
    }
}

/// Folding a batch of task results into the endpoint map, in order.
pub open spec fn spec_aggregate(m: Seq<(Seq<char>, EndpointModel)>, rs: Seq<TaskResult>) -> Seq<
    (Seq<char>, EndpointModel),
>
    decreases rs.len(),
{
    if rs.len() == 0 {
        m
    } else {
        spec_aggregate(agg_step(m, rs[0]), rs.skip(1))
    }
}

/// Well-formedness of the endpoint map: ids are unique and every entry's
/// tallies are well formed.
pub open spec fn url_map_wf(m: Seq<(String, UrlResults)>) -> bool {
    (forall|i: int, j: int| 0 <= i < j < m.len() ==> m[i].0@ != m[j].0@) && (forall|i: int|
        0 <= i < m.len() ==> url_results_wf(#[trigger] m[i].1))
}

/// The total request count over all endpoints.
pub open spec fn map_requests_total(m: Seq<(String, UrlResults)>) -> int
    decreases m.len(),
{
    if m.len() == 0 {
        0
    } else {
        m[0].1.num_of_requests + map_requests_total(m.skip(1))
    }
}

// ---------------------------------------------------------------------------
// Induction lemmas about the counters and folds.
// ---------------------------------------------------------------------------

proof fn lemma_et_total_nonneg(e: Seq<(ErrorType, usize)>)
    ensures
        et_total(e) >= 0,
    decreases e.len(),
{
    if e.len() > 0 {
        lemma_et_total_nonneg(e.skip(1));
    }
}

/// A single counter never exceeds the total over all counters.
proof fn lemma_et_entry_le_total(e: Seq<(ErrorType, usize)>, j: int)
    requires
        0 <= j < e.len(),
    ensures
        e[j].1 <= et_total(e),
    decreases e.len(),
{
    lemma_et_total_nonneg(e.skip(1));
    if j > 0 {
        lemma_et_entry_le_total(e.skip(1), j - 1);
    }
}

proof fn lemma_et_total_update(e: Seq<(ErrorType, usize)>, j: int, row: (ErrorType, usize))
    requires
        0 <= j < e.len(),
    ensures
        et_total(e.update(j, row)) == et_total(e) - e[j].1 + row.1,
    decreases e.len(),
{
    if j == 0 {
        assert(e.update(0, row).skip(1) =~= e.skip(1));
    } else {
        assert(e.update(j, row).skip(1) =~= e.skip(1).update(j - 1, row));
        lemma_et_total_update(e.skip(1), j - 1, row);
    }
}

proof fn lemma_et_total_push(e: Seq<(ErrorType, usize)>, row: (ErrorType, usize))
    ensures
        et_total(e.push(row)) == et_total(e) + row.1,
    decreases e.len(),
{
    if e.len() == 0 {
        assert(e.push(row).skip(1) =~= Seq::<(ErrorType, usize)>::empty());
        assert(e.push(row)[0] == row);
        assert(et_total(e.push(row).skip(1)) == 0);
        assert(et_total(e.push(row)) == row.1 + et_total(e.push(row).skip(1)));
        assert(et_total(e) == 0);
    } else {
        assert(e.push(row).skip(1) =~= e.skip(1).push(row));
        lemma_et_total_push(e.skip(1), row);
        assert(e.push(row)[0] == e[0]);
        assert(et_total(e.push(row)) == e[0].1 + et_total(e.push(row).skip(1)));
    }
}

/// Where the first matching kind sits decides what `bump_et` does: update
/// the counter there, or append a fresh one when no row matches.
proof fn lemma_bump_et_at(e: Seq<(ErrorType, usize)>, t: ErrorType, j: int)
    requires
        0 <= j <= e.len(),
        forall|l: int| 0 <= l < j ==> e[l].0 != t,
        j < e.len() ==> e[j].0 == t,
    ensures
        j < e.len() ==> bump_et(e, t) == e.update(j, (t, (e[j].1 + 1) as usize)),
        j == e.len() ==> bump_et(e, t) == e.push((t, 1usize)),
    decreases e.len(),
{
    if e.len() == 0 {
        assert(bump_et(e, t) =~= e.push((t, 1usize)));
    } else if j == 0 {
        assert(bump_et(e, t) =~= e.update(0, (t, (e[0].1 + 1) as usize)));
    } else {
        lemma_bump_et_at(e.skip(1), t, j - 1);
        if j < e.len() {
            assert(bump_et(e, t) =~= e.update(j, (t, (e[j].1 + 1) as usize)));
        } else {
            assert(bump_et(e, t) =~= e.push((t, 1usize)));
        }
    }
}

/// `find_key` names the first entry carrying the key, when there is one.
proof fn lemma_find_key_props(m: Seq<(Seq<char>, EndpointModel)>, k: Seq<char>)
    ensures
        find_key(m, k) == -1 ==> forall|i: int| 0 <= i < m.len() ==> m[i].0 != k,
        find_key(m, k) != -1 ==> 0 <= find_key(m, k) < m.len() && m[find_key(m, k)].0 == k
            && forall|i: int| 0 <= i < find_key(m, k) ==> m[i].0 != k,
    decreases m.len(),
{
    if m.len() > 0 && m[0].0 != k {
        lemma_find_key_props(m.skip(1), k);
        assert(forall|i: int| 1 <= i < m.len() ==> m[i] == m.skip(1)[i - 1]);
        let f = find_key(m.skip(1), k);
        if f != -1 {
            assert(m.skip(1)[f] == m[f + 1]);
            assert(find_key(m, k) == f + 1);
        }
    }
}

proof fn lemma_map_total_nonneg(m: Seq<(String, UrlResults)>)
    ensures
        map_requests_total(m) >= 0,
    decreases m.len(),
{
    if m.len() > 0 {
        lemma_map_total_nonneg(m.skip(1));
    }
}

/// One endpoint's request tally never exceeds the total over the map.
proof fn lemma_map_entry_le_total(m: Seq<(String, UrlResults)>, j: int)
    requires
        0 <= j < m.len(),
    ensures
        m[j].1.num_of_requests <= map_requests_total(m),
    decreases m.len(),
{
    lemma_map_total_nonneg(m.skip(1));
    if j > 0 {
        lemma_map_entry_le_total(m.skip(1), j - 1);
    }
}

proof fn lemma_map_total_update(m: Seq<(String, UrlResults)>, j: int, e: (String, UrlResults))
    requires
        0 <= j < m.len(),
    ensures
        map_requests_total(m.update(j, e)) == map_requests_total(m) - m[j].1.num_of_requests
            + e.1.num_of_requests,
    decreases m.len(),
{
    if j == 0 {
        assert(m.update(0, e).skip(1) =~= m.skip(1));
    } else {
        assert(m.update(j, e).skip(1) =~= m.skip(1).update(j - 1, e));
        lemma_map_total_update(m.skip(1), j - 1, e);
    }
}

proof fn lemma_map_total_push(m: Seq<(String, UrlResults)>, e: (String, UrlResults))
    ensures
        map_requests_total(m.push(e)) == map_requests_total(m) + e.1.num_of_requests,
    decreases m.len(),
{
    if m.len() == 0 {
        assert(m.push(e).skip(1) =~= Seq::<(String, UrlResults)>::empty());
        assert(m.push(e)[0] == e);
        assert(map_requests_total(m.push(e)) == e.1.num_of_requests + map_requests_total(
            m.push(e).skip(1),
        ));
    } else {
        assert(m.push(e).skip(1) =~= m.skip(1).push(e));
        lemma_map_total_push(m.skip(1), e);
        assert(m.push(e)[0] == m[0]);
        assert(map_requests_total(m.push(e)) == m[0].1.num_of_requests + map_requests_total(
            m.push(e).skip(1),
        ));
    }
}

// ---------------------------------------------------------------------------
// Executable aggregation.
// ---------------------------------------------------------------------------

/// Find the first row counting error kind `t`.
fn find_error_kind(e: &Vec<(ErrorType, usize)>, t: ErrorType) -> (r: Option<usize>)
    ensures
        match r {
            Some(j) => j < e@.len() && e@[j as int].0 == t && forall|l: int|
                0 <= l < j ==> e@[l].0 != t,
            None => forall|l: int| 0 <= l < e@.len() ==> e@[l].0 != t,
        },
{
    let mut j: usize = 0;
    while j < e.len()
        invariant
            0 <= j <= e@.len(),
            forall|l: int| 0 <= l < j ==> e@[l].0 != t,
        decreases e@.len() - j,
    {
        if e[j].0 == t {
            return Some(j);
        }
        j = j + 1;
    }
    None
}

/// Find the insertion position for duration `k`: the first row whose
/// duration is not smaller.
fn find_duration_pos(d: &Vec<(usize, usize)>, k: usize) -> (j: usize)
    requires
        table_sorted(d@),
    ensures
        j <= d@.len(),
        forall|l: int| 0 <= l < j ==> d@[l].0 < k,
        j < d@.len() ==> d@[j as int].0 >= k,
{
    let mut j: usize = 0;
    while j < d.len()
        invariant
            0 <= j <= d@.len(),
            forall|l: int| 0 <= l < j ==> d@[l].0 < k,
        decreases d@.len() - j,
    {
        if d[j].0 >= k {
            return j;
        }
        j = j + 1;
    }
    j
}

impl UrlResults {
    /// Fresh, empty tallies for a newly seen endpoint.
    pub fn new_empty() -> (u: UrlResults)
        ensures
            endpoint_model(u) == empty_endpoint_model(),
            url_results_wf(u),
    {
        let u = UrlResults {
            num_of_requests: 0,
            durations: Vec::new(),
            num_of_errors: 0,
            error_types: Vec::new(),
        };
        proof {
            assert(u.durations@ =~= Seq::<(usize, usize)>::empty());
            assert(u.error_types@ =~= Seq::<(ErrorType, usize)>::empty());
            assert(endpoint_model(u) =~= empty_endpoint_model());
        }
        u
    }

    /// Fold one task result into these tallies.
    fn record(&mut self, r: &TaskResult)
        requires
            url_results_wf(*old(self)),
            old(self).num_of_requests < usize::MAX,
        ensures
            url_results_wf(*final(self)),
            endpoint_model(*final(self)) == record_result(endpoint_model(*old(self)), *r),
    {
        proof {
            crate::stats::lemma_table_total_nonneg(self.durations@);
            lemma_et_total_nonneg(self.error_types@);
        }
        self.num_of_requests = self.num_of_requests + 1;
        if r.error {
            self.num_of_errors = self.num_of_errors + 1;
            let t = r.error_type;
            let found = find_error_kind(&self.error_types, t);
            match found {
                Some(j) => {
                    proof {
                        lemma_et_entry_le_total(self.error_types@, j as int);
                        lemma_bump_et_at(self.error_types@, t, j as int);
                        lemma_et_total_update(
                            self.error_types@,
                            j as int,
                            (t, (self.error_types@[j as int].1 + 1) as usize),
                        );
                    }
                    let c = self.error_types[j].1;
                    self.error_types[j] = (t, c + 1);
                },
                None => {
                    proof {
                        lemma_bump_et_at(self.error_types@, t, self.error_types@.len() as int);
                        lemma_et_total_push(self.error_types@, (t, 1usize));
                    }
                    self.error_types.push((t, 1));
                },
            }
        } else {
            let k = r.duration;
            let j = find_duration_pos(&self.durations, k);
            if j < self.durations.len() && self.durations[j].0 == k {
                proof {
                    lemma_table_entry_le_total(self.durations@, j as int);
                    lemma_bump_table_at(self.durations@, k, j as int);
                    lemma_table_total_update(
                        self.durations@,
                        j as int,
                        (k, (self.durations@[j as int].1 + 1) as usize),
                    );
                }
                let c = self.durations[j].1;
                self.durations[j] = (k, c + 1);
            } else {
                proof {
                    lemma_bump_table_at(self.durations@, k, j as int);
                    lemma_table_total_insert(self.durations@, j as int, (k, 1usize));
                }
                self.durations.insert(j, (k, 1));
            }
        }
    }
}

/// Find the first endpoint entry carrying id `id`.
fn find_entry(m: &Vec<(String, UrlResults)>, id: &String) -> (r: Option<usize>)
    ensures
        match r {
            Some(j) => j < m@.len() && m@[j as int].0@ == id@ && forall|l: int|
                0 <= l < j ==> m@[l].0@ != id@,
            None => forall|l: int| 0 <= l < m@.len() ==> m@[l].0@ != id@,
        },
{
    let mut j: usize = 0;
    while j < m.len()
        invariant
            0 <= j <= m@.len(),
            forall|l: int| 0 <= l < j ==> m@[l].0@ != id@,
        decreases m@.len() - j,
    {
        if m[j].0.eq(id) {
            return Some(j);
        }
        j = j + 1;
    }
    None
}

/// Fold a batch of task results into the per-endpoint map, in order,
/// creating entries for ids seen for the first time. The request total must
/// leave room for the batch, since every tally is a machine word.
pub fn aggregate_results(url_results: &mut Vec<(String, UrlResults)>, results: Vec<TaskResult>)
    requires
        url_map_wf(old(url_results)@),
        map_requests_total(old(url_results)@) + results@.len() <= usize::MAX,
    ensures
        url_map_wf(final(url_results)@),
        map_model(final(url_results)@) == spec_aggregate(map_model(old(url_results)@), results@),
        map_requests_total(final(url_results)@) == map_requests_total(old(url_results)@)
            + results@.len(),
{
    let ghost target = spec_aggregate(map_model(old(url_results)@), results@);
    let ghost orig_total = map_requests_total(old(url_results)@);
    proof {
        assert(results@.skip(0) =~= results@);
    }
    let mut i: usize = 0;
    while i < results.len()
        invariant
            0 <= i <= results@.len(),
            url_map_wf(url_results@),
            spec_aggregate(map_model(url_results@), results@.skip(i as int)) == target,
            map_requests_total(url_results@) == orig_total + i,
            orig_total + results@.len() <= usize::MAX,
            target == spec_aggregate(map_model(old(url_results)@), results@),
        decreases results@.len() - i,
    {
        proof {
            assert(results@.skip(i as int)[0] == results@[i as int]);
            assert(results@.skip(i as int).skip(1) =~= results@.skip(i as int + 1));
            lemma_find_key_props(map_model(url_results@), results@[i as int].id@);
            assert(forall|l: int|
                0 <= l < url_results@.len() ==> #[trigger] map_model(url_results@)[l].0
                    == url_results@[l].0@);
        }
        let r = &results[i];
        let ghost before = url_results@;
        let found = find_entry(url_results, &r.id);
        match found {
            Some(j) => {
                proof {
                    lemma_map_entry_le_total(url_results@, j as int);
                    lemma_map_total_nonneg(url_results@);
                }
                proof {
                    let mm = map_model(before);
                    let k = r.id@;
                    let fk = find_key(mm, k);
                    assert(mm[j as int].0 == before[j as int].0@);
                    if fk == -1 {
                        assert(mm[j as int].0 != k);
                        assert(false);
                    } else if fk < j as int {
                        assert(before[fk].0@ != k);
                        assert(mm[fk].0 == before[fk].0@);
                        assert(false);
                    } else if fk > j as int {
                        assert(mm[j as int].0 != k);
                        assert(false);
                    }
                }
                let pair = url_results.remove(j);
                let (key, mut ur) = pair;
                ur.record(r);
                url_results.insert(j, (key, ur));
                proof {
                    assert(url_results@ =~= before.update(j as int, (key, ur)));
                    assert(find_key(map_model(before), r.id@) == j as int);
                    assert(map_model(url_results@) =~= agg_step(map_model(before), *r));
                    lemma_map_total_update(before, j as int, (key, ur));
                    assert(forall|a: int, b: int|
                        0 <= a < b < url_results@.len() ==> url_results@[a].0@
                            != url_results@[b].0@);
                }
            },
            None => {
                let id_clone = r.id.clone();
                let mut ur = UrlResults::new_empty();
                ur.record(r);
                url_results.push((id_clone, ur));
                proof {
                    assert(url_results@ =~= before.push((id_clone, ur)));
                    assert(find_key(map_model(before), r.id@) == -1);
                    assert(map_model(url_results@) =~= agg_step(map_model(before), *r));
                    lemma_map_total_push(before, (id_clone, ur));
                }
            },
        }
        i = i + 1;
    }
    proof {
        assert(results@.skip(results@.len() as int) =~= Seq::<TaskResult>::empty());
    }
}

/// Every endpoint's request count splits into its errors plus its recorded
/// duration samples: `requests == errors + sum of the frequency table`.
pub proof fn lemma_requests_split(u: UrlResults)
    requires
        url_results_wf(u),
    ensures
        u.num_of_requests == u.num_of_errors + table_total(u.durations@),
{
}

// ---------------------------------------------------------------------------
// The aggregator's running state.
// ---------------------------------------------------------------------------

/// How many outcomes of a batch are user failures.
pub open spec fn count_failed(rs: Seq<UserResult>) -> int
    decreases rs.len(),
{
    if rs.len() == 0 {
        0
    } else {
        (if rs[0] is Err {
            1int
        } else {
            0int
        }) + count_failed(rs.skip(1))
    }
}

/// How many task results a batch of outcomes carries in total.
pub open spec fn total_results_len(rs: Seq<UserResult>) -> int
    decreases rs.len(),
{
    if rs.len() == 0 {
        0
    } else {
        (match rs[0] {
            Ok(v) => v@.len() as int,
            Err(_) => 0,
        }) + total_results_len(rs.skip(1))
    }
}

/// Folding a batch of user outcomes into the endpoint map: failed users
/// leave the map alone, successful users contribute their result vectors in
/// order.
pub open spec fn apply_outcomes(m: Seq<(Seq<char>, EndpointModel)>, rs: Seq<UserResult>) -> Seq<
    (Seq<char>, EndpointModel),
>
    decreases rs.len(),
{
    if rs.len() == 0 {
        m
    } else {
        apply_outcomes(
            match rs[0] {
                Ok(v) => spec_aggregate(m, v@),
                Err(_) => m,
            },
            rs.skip(1),
        )
    }
}

proof fn lemma_outcome_sums_nonneg(rs: Seq<UserResult>)
    ensures
        count_failed(rs) >= 0,
        total_results_len(rs) >= 0,
    decreases rs.len(),
{
    if rs.len() > 0 {
        lemma_outcome_sums_nonneg(rs.skip(1));
    }
}

/// Everything the aggregator accumulates over a run: the user tallies from
/// the latest snapshot and the per-endpoint statistics seen so far.
pub struct AggregatedResults {
    pub num_of_failed_users: usize,
    pub current_users: usize,
    pub duration: usize,
    pub url_results: Vec<(String, UrlResults)>,
}

impl AggregatedResults {
    pub fn new() -> (a: AggregatedResults)
        ensures
            a.num_of_failed_users == 0,
            a.current_users == 0,
            a.duration == 0,
            a.url_results@.len() == 0,
            url_map_wf(a.url_results@),
            map_requests_total(a.url_results@) == 0,
    {
        AggregatedResults {
            num_of_failed_users: 0,
            current_users: 0,
            duration: 0,
            url_results: Vec::new(),
        }
    }

    /// Fold one report snapshot into the running aggregate: adopt the
    /// snapshot's user count and elapsed seconds, tally failed users, and
    /// aggregate every successful user's results in order.
    pub fn apply_report_message(&mut self, msg: ReportMessage)
        requires
            url_map_wf(old(self).url_results@),
            map_requests_total(old(self).url_results@) + total_results_len(msg.results@)
                <= usize::MAX,
            old(self).num_of_failed_users + count_failed(msg.results@) <= usize::MAX,
        ensures
            url_map_wf(final(self).url_results@),
            final(self).current_users == msg.current_users,
            final(self).duration == msg.duration,
            final(self).num_of_failed_users == old(self).num_of_failed_users + count_failed(
                msg.results@,
            ),
            map_model(final(self).url_results@) == apply_outcomes(
                map_model(old(self).url_results@),
                msg.results@,
            ),
    {
        self.current_users = msg.current_users;
        self.duration = msg.duration;
        let ghost target = apply_outcomes(map_model(self.url_results@), msg.results@);
        let ghost orig_failed = self.num_of_failed_users as int;
        let mut rest = msg.results;
        proof {
            lemma_outcome_sums_nonneg(rest@);
        }
        while rest.len() > 0
            invariant
                url_map_wf(self.url_results@),
                apply_outcomes(map_model(self.url_results@), rest@) == target,
                map_requests_total(self.url_results@) + total_results_len(rest@) <= usize::MAX,
                self.num_of_failed_users + count_failed(rest@) <= usize::MAX,
                self.num_of_failed_users as int + count_failed(rest@) == orig_failed + count_failed(
                    msg.results@,
                ),
                self.current_users == msg.current_users,
                self.duration == msg.duration,
            decreases rest@.len(),
        {
            proof {
                assert(rest@.skip(0) =~= rest@);
                lemma_outcome_sums_nonneg(rest@.skip(1));
            }
            let ghost rest0 = rest@;
            let outcome = rest.remove(0);
            proof {
                assert(rest@ =~= rest0.skip(1));
            }
            match outcome {
                Ok(v) => {
                    aggregate_results(&mut self.url_results, v);
                },
                Err(_) => {
                    self.num_of_failed_users = self.num_of_failed_users + 1;
                },
            }
        }
        proof {
            assert(rest@ =~= Seq::<UserResult>::empty());
        }
    }
}

/// The label under which an error kind is reported.
pub open spec fn spec_error_label(t: ErrorType) -> Seq<char> {
    match t {
        ErrorType::Connection => "Connection"@,
        ErrorType::Internal => "Internal application"@,
        ErrorType::RequestOther => "Other"@,
        ErrorType::Request4xx => "4XX"@,
        ErrorType::Request5xx => "5XX"@,
        ErrorType::Timeout => "Timeout"@,
    }
}

/// The human-readable label of an error kind.
pub fn print_error_type(err_type: &ErrorType) -> (s: &'static str)
    ensures
        s@ == spec_error_label(*err_type),
{
    match err_type {
        ErrorType::Connection => "Connection",
        ErrorType::Internal => "Internal application",
        ErrorType::RequestOther => "Other",
        ErrorType::Request4xx => "4XX",
        ErrorType::Request5xx => "5XX",
        ErrorType::Timeout => "Timeout",
    }
}

} // verus!
