//! The decisions behind tagging the candidates' jobs: grouping candidates
//! by job, describing each job, choosing which descriptions still need
//! tags, recording the tags a model returned, and tagging the candidates.

use vstd::prelude::*;
use crate::json::{JsonValue, JsonTree, key_index, json_of, parse_json, get, trees_of, lemma_trees_of, text_array, object1, object2, object4, array1, array2};
use crate::llm_payload_service::{LlmPayloadService, JsonSchemaFormat, responses_payload};
use crate::suspect_selection::{Candidate, CandidateView, candidate_views, VerificationPerson, VerificationPersonView, tagged_views};
use crate::text::{parse_u64, parse_u64_chars, chars_of, decimal, decimal_chars, string_of, sorted_unique, views, strictly_sorted, insert_sorted, sorted_slot, push_str, seq_less, join, join_strings,
    lemma_less_irreflexive, lemma_less_transitive};

verus! {

/// How a candidate is named among the people of a job: `name surname`.
pub open spec fn label(c: CandidateView) -> Seq<char> {
    c.name + " "@ + c.surname
}

/// The jobs of the candidates.
pub open spec fn jobs_of(cs: Seq<CandidateView>) -> Set<Seq<char>> {
    Set::new(|j: Seq<char>| exists|i: int| 0 <= i < cs.len() && (#[trigger] cs[i]).job == j)
}

/// The labels of the candidates with the job `job`.
pub open spec fn names_of(cs: Seq<CandidateView>, job: Seq<char>) -> Set<Seq<char>> {
    Set::new(|l: Seq<char>| exists|i: int| 0 <= i < cs.len() && (#[trigger] cs[i]).job == job && label(cs[i]) == l)
}

proof fn lemma_jobs_of_push(cs: Seq<CandidateView>, c: CandidateView)
    ensures
        jobs_of(cs.push(c)) == jobs_of(cs).insert(c.job),
{
    let a = jobs_of(cs.push(c));
    let b = jobs_of(cs).insert(c.job);
    assert forall|j: Seq<char>| a.contains(j) <==> b.contains(j) by {
        if a.contains(j) {
            let i = choose|i: int| 0 <= i < cs.push(c).len() && (#[trigger] cs.push(c)[i]).job == j;
            if i < cs.len() {
                assert(cs[i] == cs.push(c)[i]);
            }
        }
        if jobs_of(cs).contains(j) {
            let i = choose|i: int| 0 <= i < cs.len() && (#[trigger] cs[i]).job == j;
            assert(cs.push(c)[i] == cs[i]);
        }
        if j == c.job {
            assert(cs.push(c)[cs.len() as int] == c);
        }
    }
    assert(a == b);
}

proof fn lemma_names_of_push(cs: Seq<CandidateView>, c: CandidateView, job: Seq<char>)
    ensures
        c.job == job ==> names_of(cs.push(c), job) == names_of(cs, job).insert(label(c)),
        c.job != job ==> names_of(cs.push(c), job) == names_of(cs, job),
{
    let a = names_of(cs.push(c), job);
    let b = if c.job == job { names_of(cs, job).insert(label(c)) } else { names_of(cs, job) };
    assert forall|l: Seq<char>| a.contains(l) <==> b.contains(l) by {
        if a.contains(l) {
            let i = choose|i: int| 0 <= i < cs.push(c).len() && (#[trigger] cs.push(c)[i]).job == job && label(cs.push(c)[i]) == l;
            if i < cs.len() {
                assert(cs[i] == cs.push(c)[i]);
            }
        }
        if names_of(cs, job).contains(l) {
            let i = choose|i: int| 0 <= i < cs.len() && (#[trigger] cs[i]).job == job && label(cs[i]) == l;
            assert(cs.push(c)[i] == cs[i]);
        }
        if c.job == job && l == label(c) {
            assert(cs.push(c)[cs.len() as int] == c);
        }
    }
    assert(a == b);
}

proof fn lemma_names_of_absent(cs: Seq<CandidateView>, job: Seq<char>)
    requires
        !jobs_of(cs).contains(job),
    ensures
        names_of(cs, job) == Set::<Seq<char>>::empty(),
{
    assert forall|l: Seq<char>| !names_of(cs, job).contains(l) by {
        if names_of(cs, job).contains(l) {
            let i = choose|i: int| 0 <= i < cs.len() && (#[trigger] cs[i]).job == job && label(cs[i]) == l;
            assert(jobs_of(cs).contains(job));
        }
    }
    assert(names_of(cs, job) == Set::<Seq<char>>::empty());
}

/// The label of a candidate.
fn label_of(c: &Candidate) -> (r: String)
    ensures
        r@ == label(c@),
{
    let mut r = c.name.clone();
    push_str(&mut r, " ");
    push_str(&mut r, c.surname.as_str());
    r
}

/// The jobs `jobs` (sorted) with the sorted labels `names[g]` of each job
/// describe exactly the candidates `cs`.
pub open spec fn groups_match(jobs: Seq<Seq<char>>, names: Seq<Seq<Seq<char>>>, cs: Seq<CandidateView>) -> bool {
    &&& jobs.len() == names.len()
    &&& strictly_sorted(jobs)
    &&& jobs.to_set() == jobs_of(cs)
    &&& forall|g: int| 0 <= g < jobs.len() ==> strictly_sorted(#[trigger] names[g])
    &&& forall|g: int| 0 <= g < jobs.len() ==> (#[trigger] names[g]).to_set() == names_of(cs, jobs[g])
}

/// The character views of a sequence of string lists.
pub open spec fn nested_views(v: Seq<Vec<String>>) -> Seq<Seq<Seq<char>>> {
    v.map_values(|n: Vec<String>| views(n@))
}

/// The candidates' jobs in order, each with the sorted labels of its
/// candidates (a `BTreeMap` of `BTreeSet`s).
pub fn group_jobs(candidates: &[Candidate]) -> (r: (Vec<String>, Vec<Vec<String>>))
    ensures
        groups_match(views(r.0@), nested_views(r.1@), candidate_views(candidates@)),
{
    let ghost cs = candidate_views(candidates@);
    let mut jobs: Vec<String> = Vec::new();
    let mut names: Vec<Vec<String>> = Vec::new();
    let mut i: usize = 0;
    proof {
        assert(cs.take(0) == Seq::<CandidateView>::empty());
        assert(views(jobs@).to_set() == jobs_of(cs.take(0)));
    }
    while i < candidates.len()
        invariant
            cs == candidate_views(candidates@),
            i <= candidates.len(),
            groups_match(views(jobs@), nested_views(names@), cs.take(i as int)),
        decreases candidates.len() - i,
    {
        let c = &candidates[i];
        let ghost prev = cs.take(i as int);
        let ghost old_jobs = views(jobs@);
        let ghost old_names = nested_views(names@);
        assert(cs.take(i + 1) == prev.push(c@));
        proof {
            lemma_jobs_of_push(prev, c@);
            assert forall|job: Seq<char>| true implies
                (c@.job == job ==> names_of(prev.push(c@), job) == names_of(prev, job).insert(label(c@)))
                && (c@.job != job ==> names_of(prev.push(c@), job) == names_of(prev, job)) by {
                lemma_names_of_push(prev, c@, job);
            }
        }
        let lab = label_of(c);
        let (p, found) = sorted_slot(&jobs, &c.job);
        if found {
            let mut ns = names.remove(p);
            assert(views(ns@) == old_names[p as int]);
            assert(strictly_sorted(old_names[p as int]));
            insert_sorted(&mut ns, lab);
            let ghost nsv = views(ns@);
            names.insert(p, ns);
            proof {
                let nj = views(jobs@);
                let nn = nested_views(names@);
                assert(nj == old_jobs);
                assert(nn[p as int] == nsv);
                assert(nj[p as int] == c@.job);
                assert forall|g: int| 0 <= g < nj.len() implies
                    strictly_sorted(#[trigger] nn[g]) && nn[g].to_set() == names_of(prev.push(c@), nj[g]) by {
                    if g != p {
                        assert(nn[g] == old_names[g]);
                        if nj[g] == c@.job {
                            if g < p {
                                lemma_less_irreflexive(c@.job);
                            } else {
                                lemma_less_irreflexive(c@.job);
                            }
                        }
                    }
                }
                assert(nj.to_set() == jobs_of(prev.push(c@))) by {
                    assert(old_jobs.contains(c@.job));
                    assert(old_jobs.to_set().insert(c@.job) == old_jobs.to_set());
                }
            }
        } else {
            let mut ns: Vec<String> = Vec::new();
            let ghost lv = lab@;
            ns.push(lab);
            assert(views(ns@) == seq![lv]);
            let job = c.job.clone();
            jobs.insert(p, job);
            names.insert(p, ns);
            proof {
                let nj = views(jobs@);
                let nn = nested_views(names@);
                assert(nj == old_jobs.take(p as int).push(c@.job) + old_jobs.skip(p as int));
                assert(nn == old_names.take(p as int).push(seq![lv]) + old_names.skip(p as int));
                assert(!jobs_of(prev).contains(c@.job));
                lemma_names_of_absent(prev, c@.job);
                assert forall|a: int, b: int| 0 <= a < b < nj.len() implies seq_less(#[trigger] nj[a], #[trigger] nj[b]) by {
                    if b > p {
                        if b > p + 1 {
                            lemma_less_transitive(c@.job, old_jobs[p as int], nj[b]);
                        }
                        assert(seq_less(c@.job, nj[b]));
                        if a < p {
                            lemma_less_transitive(nj[a], c@.job, nj[b]);
                        }
                    }
                }
                assert forall|g: int| 0 <= g < nj.len() implies
                    strictly_sorted(#[trigger] nn[g]) && nn[g].to_set() == names_of(prev.push(c@), nj[g]) by {
                    if g == p {
                        assert(seq![lv].to_set() == Set::<Seq<char>>::empty().insert(lv)) by {
                            assert(seq![lv].to_set().contains(lv) || seq![lv][0] == lv);
                            assert(Seq::<Seq<char>>::empty().push(lv) == seq![lv]);
                            Seq::<Seq<char>>::empty().lemma_push_to_set_commute(lv);
                            assert(Seq::<Seq<char>>::empty().to_set() == Set::<Seq<char>>::empty());
                        }
                    } else {
                        let og = if g < p { g } else { g - 1 };
                        assert(nn[g] == old_names[og]);
                        assert(nj[g] == old_jobs[og]);
                        assert(old_jobs[og] != c@.job) by {
                            if old_jobs[og] == c@.job {
                                assert(old_jobs.contains(c@.job));
                            }
                        }
                    }
                }
                assert(nj.to_set() == old_jobs.to_set().insert(c@.job)) by {
                    assert forall|e: Seq<char>| nj.to_set().contains(e) <==> old_jobs.to_set().insert(c@.job).contains(e) by {
                        if nj.to_set().contains(e) {
                            let k = choose|k: int| 0 <= k < nj.len() && nj[k] == e;
                            if k < p {
                                assert(old_jobs[k] == e);
                            } else if k > p {
                                assert(old_jobs[k - 1] == e);
                            }
                        }
                        if old_jobs.to_set().contains(e) {
                            let k = choose|k: int| 0 <= k < old_jobs.len() && old_jobs[k] == e;
                            if k < p {
                                assert(nj[k] == e);
                            } else {
                                assert(nj[k + 1] == e);
                            }
                        }
                        if e == c@.job {
                            assert(nj[p as int] == e);
                        }
                    }
                }
            }
        }
        i = i + 1;
    }
    assert(cs.take(candidates.len() as int) == cs);
    (jobs, names)
}


/// The description of a job for the model: the job and the people doing it.
pub open spec fn describe(job: Seq<char>, names: Seq<Seq<char>>) -> Seq<char> {
    "Opis stanowiska: "@ + job + "\nPowiązane osoby: "@ + join(names, ", "@)
}

/// A job, the sorted labels of the candidates doing it, and its
/// description.
#[derive(Debug, Clone, PartialEq)]
pub struct JobGroup {
    pub job: String,
    pub names: Vec<String>,
    pub description: String,
}

/// The text of a job group.
pub struct JobGroupView {
    pub job: Seq<char>,
    pub names: Seq<Seq<char>>,
    pub description: Seq<char>,
}

impl View for JobGroup {
    type V = JobGroupView;

    open spec fn view(&self) -> JobGroupView {
        JobGroupView { job: self.job@, names: views(self.names@), description: self.description@ }
    }
}

/// The views of a sequence of job groups.
pub open spec fn group_views(s: Seq<JobGroup>) -> Seq<JobGroupView> {
    s.map_values(|g: JobGroup| g@)
}

/// The groups describe the candidates: one group per job, in job order,
/// each with the sorted labels of its candidates and its description.
pub open spec fn groups_of(gs: Seq<JobGroupView>, cs: Seq<CandidateView>) -> bool {
    &&& groups_match(
        gs.map_values(|g: JobGroupView| g.job),
        gs.map_values(|g: JobGroupView| g.names),
        cs,
    )
    &&& forall|g: int| 0 <= g < gs.len() ==> (#[trigger] gs[g]).description == describe(gs[g].job, gs[g].names)
}

/// The description of a job done by the people `names`.
pub fn describe_job(job: &String, names: &Vec<String>) -> (r: String)
    ensures
        r@ == describe(job@, views(names@)),
{
    let mut r = String::from_str("Opis stanowiska: ");
    push_str(&mut r, job.as_str());
    push_str(&mut r, "\nPowiązane osoby: ");
    let joined = join_strings(names, ", ");
    push_str(&mut r, joined.as_str());
    r
}

/// The candidates' jobs in order, each with its people and description.
pub fn job_groups(candidates: &[Candidate]) -> (r: Vec<JobGroup>)
    ensures
        groups_of(group_views(r@), candidate_views(candidates@)),
{
    let (jobs, names) = group_jobs(candidates);
    let ghost jv = views(jobs@);
    let ghost nv = nested_views(names@);
    let mut groups: Vec<JobGroup> = Vec::new();
    let mut i: usize = 0;
    while i < jobs.len()
        invariant
            jv == views(jobs@),
            nv == nested_views(names@),
            jobs.len() == names.len(),
            i <= jobs.len(),
            groups@.len() == i,
            forall|g: int| 0 <= g < i ==> (#[trigger] groups@[g])@ == (JobGroupView {
                job: jv[g],
                names: nv[g],
                description: describe(jv[g], nv[g]),
            }),
        decreases jobs.len() - i,
    {
        let description = describe_job(&jobs[i], &names[i]);
        groups.push(JobGroup { job: jobs[i].clone(), names: crate::suspect_selection::copy_strings(&names[i]), description });
        i = i + 1;
    }
    let ghost gv = group_views(groups@);
    assert(gv.map_values(|g: JobGroupView| g.job) == jv);
    assert(gv.map_values(|g: JobGroupView| g.names) == nv);
    groups
}


/// The tags stored for job descriptions; a later entry for the same
/// description replaces an earlier one (a `HashMap`).
#[derive(Debug, Clone, PartialEq)]
pub struct JobTagCache {
    pub entries: Vec<(String, Vec<String>)>,
}

/// The map that a list of cache entries stands for.
pub open spec fn cache_map(es: Seq<(String, Vec<String>)>) -> Map<Seq<char>, Seq<Seq<char>>>
    decreases es.len(),
{
    if es.len() == 0 {
        Map::empty()
    } else {
        cache_map(es.drop_last()).insert(es.last().0@, views(es.last().1@))
    }
}

impl View for JobTagCache {
    type V = Map<Seq<char>, Seq<Seq<char>>>;

    open spec fn view(&self) -> Map<Seq<char>, Seq<Seq<char>>> {
        cache_map(self.entries@)
    }
}

proof fn lemma_cache_map_suffix(es: Seq<(String, Vec<String>)>, i: int, k: Seq<char>)
    requires
        0 <= i <= es.len(),
        forall|j: int| i <= j < es.len() ==> (#[trigger] es[j]).0@ != k,
    ensures
        cache_map(es).contains_key(k) == cache_map(es.take(i)).contains_key(k),
        cache_map(es).contains_key(k) ==> cache_map(es)[k] == cache_map(es.take(i))[k],
    decreases es.len() - i,
{
    if i < es.len() {
        lemma_cache_map_suffix(es, i + 1, k);
        assert(es.take(i + 1).drop_last() == es.take(i));
        assert(es.take(i + 1).last() == es[i]);
    } else {
        assert(es.take(i) == es);
    }
}

impl JobTagCache {
    /// An empty cache.
    pub fn new() -> (r: JobTagCache)
        ensures
            r@ == Map::<Seq<char>, Seq<Seq<char>>>::empty(),
    {
        JobTagCache { entries: Vec::new() }
    }

    /// The tags stored for `key`.
    pub fn get(&self, key: &String) -> (r: Option<&Vec<String>>)
        ensures
            r matches Some(v) ==> self@.contains_key(key@) && self@[key@] == views(v@),
            r is None ==> !self@.contains_key(key@),
    {
        let mut i: usize = self.entries.len();
        while i > 0
            invariant
                i <= self.entries.len(),
                forall|j: int| i <= j < self.entries.len() ==> (#[trigger] self.entries@[j]).0@ != key@,
            decreases i,
        {
            if self.entries[i - 1].0 == *key {
                proof {
                    lemma_cache_map_suffix(self.entries@, i as int, key@);
                    assert(self.entries@.take(i as int).drop_last() == self.entries@.take(i - 1));
                }
                return Some(&self.entries[i - 1].1);
            }
            i = i - 1;
        }
        proof {
            lemma_cache_map_suffix(self.entries@, 0, key@);
        }
        None
    }

    /// Whether tags are stored for `key`.
    pub fn contains_key(&self, key: &String) -> (r: bool)
        ensures
            r == self@.contains_key(key@),
    {
        self.get(key).is_some()
    }

    /// Stores `tags` for `key`, replacing what was stored for it.
    pub fn insert(&mut self, key: String, tags: Vec<String>)
        ensures
            final(self)@ == old(self)@.insert(key@, views(tags@)),
    {
        let ghost es = self.entries@;
        self.entries.push((key, tags));
        assert(self.entries@.drop_last() == es);
    }
}

/// The descriptions of `gs`, in order, that `m` holds no tags for.
pub open spec fn pending_of(gs: Seq<JobGroupView>, m: Map<Seq<char>, Seq<Seq<char>>>) -> Seq<Seq<char>>
    decreases gs.len(),
{
    if gs.len() == 0 {
        Seq::empty()
    } else if m.contains_key(gs.last().description) {
        pending_of(gs.drop_last(), m)
    } else {
        pending_of(gs.drop_last(), m).push(gs.last().description)
    }
}

/// The descriptions, in group order, that the cache holds no tags for.
pub fn pending_descriptions(groups: &Vec<JobGroup>, cache: &JobTagCache) -> (r: Vec<String>)
    ensures
        views(r@) == pending_of(group_views(groups@), cache@),
{
    let ghost gs = group_views(groups@);
    let mut r: Vec<String> = Vec::new();
    let mut i: usize = 0;
    assert(gs.take(0) == Seq::<JobGroupView>::empty());
    assert(views(r@) == Seq::<Seq<char>>::empty());
    while i < groups.len()
        invariant
            gs == group_views(groups@),
            i <= groups.len(),
            views(r@) == pending_of(gs.take(i as int), cache@),
        decreases groups.len() - i,
    {
        assert(gs.take(i + 1).drop_last() == gs.take(i as int));
        assert(gs.take(i + 1).last() == groups@[i as int]@);
        let ghost before = views(r@);
        if !cache.contains_key(&groups[i].description) {
            r.push(groups[i].description.clone());
            assert(views(r@) == before.push(groups@[i as int].description@));
        }
        i = i + 1;
    }
    assert(gs.take(groups.len() as int) == gs);
    r
}

/// One record of the model's tagging answer: the index of a description
/// and its tags.
#[derive(Debug, Clone, PartialEq)]
pub struct TaggingRecord {
    pub index: usize,
    pub tags: Vec<String>,
}

/// The tags of each description index, normalized; a later record for the
/// same index replaces an earlier one.
#[derive(Debug, Clone, PartialEq)]
pub struct TagsByIndex {
    pub entries: Vec<(usize, Vec<String>)>,
}

/// The map that a list of index entries stands for.
pub open spec fn index_map(es: Seq<(usize, Vec<String>)>) -> Map<usize, Seq<Seq<char>>>
    decreases es.len(),
{
    if es.len() == 0 {
        Map::empty()
    } else {
        index_map(es.drop_last()).insert(es.last().0, views(es.last().1@))
    }
}

impl View for TagsByIndex {
    type V = Map<usize, Seq<Seq<char>>>;

    open spec fn view(&self) -> Map<usize, Seq<Seq<char>>> {
        index_map(self.entries@)
    }
}

/// The map of the model's records: each index to its normalized tags, the
/// last record for an index winning.
pub open spec fn records_map(rs: Seq<(usize, Seq<Seq<char>>)>) -> Map<usize, Seq<Seq<char>>>
    decreases rs.len(),
{
    if rs.len() == 0 {
        Map::empty()
    } else {
        records_map(rs.drop_last()).insert(rs.last().0, sorted_unique(rs.last().1))
    }
}

/// The plain values of the model's records.
pub open spec fn record_views(rs: Seq<TaggingRecord>) -> Seq<(usize, Seq<Seq<char>>)> {
    rs.map_values(|r: TaggingRecord| (r.index, views(r.tags@)))
}

proof fn lemma_index_map_suffix(es: Seq<(usize, Vec<String>)>, i: int, k: usize)
    requires
        0 <= i <= es.len(),
        forall|j: int| i <= j < es.len() ==> (#[trigger] es[j]).0 != k,
    ensures
        index_map(es).contains_key(k) == index_map(es.take(i)).contains_key(k),
        index_map(es).contains_key(k) ==> index_map(es)[k] == index_map(es.take(i))[k],
    decreases es.len() - i,
{
    if i < es.len() {
        lemma_index_map_suffix(es, i + 1, k);
        assert(es.take(i + 1).drop_last() == es.take(i));
        assert(es.take(i + 1).last() == es[i]);
    } else {
        assert(es.take(i) == es);
    }
}

impl TagsByIndex {
    /// The normalized tags of each index in the model's records.
    pub fn from_records(records: Vec<TaggingRecord>) -> (r: TagsByIndex)
        ensures
            r@ == records_map(record_views(records@)),
    {
        let ghost rs = record_views(records@);
        let mut entries: Vec<(usize, Vec<String>)> = Vec::new();
        let mut remaining = records;
        let mut i: usize = 0;
        assert(rs.take(0) == Seq::<(usize, Seq<Seq<char>>)>::empty());
        while i < remaining.len()
            invariant
                rs == record_views(remaining@),
                i <= remaining.len(),
                index_map(entries@) == records_map(rs.take(i as int)),
            decreases remaining.len() - i,
        {
            let tags = crate::suspect_selection::copy_strings(&remaining[i].tags);
            let normalized = crate::suspect_selection::normalize_tags(tags);
            let ghost before = entries@;
            entries.push((remaining[i].index, normalized));
            assert(entries@.drop_last() == before);
            assert(rs.take(i + 1).drop_last() == rs.take(i as int));
            assert(rs.take(i + 1).last() == rs[i as int]);
            i = i + 1;
        }
        assert(rs.take(remaining.len() as int) == rs);
        TagsByIndex { entries }
    }

    /// The tags recorded for `index`, or none.
    pub fn tags_for(&self, index: usize) -> (r: Vec<String>)
        ensures
            self@.contains_key(index) ==> views(r@) == self@[index],
            !self@.contains_key(index) ==> r@.len() == 0,
    {
        let mut i: usize = self.entries.len();
        while i > 0
            invariant
                i <= self.entries.len(),
                forall|j: int| i <= j < self.entries.len() ==> (#[trigger] self.entries@[j]).0 != index,
            decreases i,
        {
            if self.entries[i - 1].0 == index {
                proof {
                    lemma_index_map_suffix(self.entries@, i as int, index);
                    assert(self.entries@.take(i as int).drop_last() == self.entries@.take(i - 1));
                }
                return crate::suspect_selection::copy_strings(&self.entries[i - 1].1);
            }
            i = i - 1;
        }
        proof {
            lemma_index_map_suffix(self.entries@, 0, index);
        }
        Vec::new()
    }
}

/// The tags recorded for index `i`, or none.
pub open spec fn tags_at(t: Map<usize, Seq<Seq<char>>>, i: int) -> Seq<Seq<char>> {
    if 0 <= i <= usize::MAX && t.contains_key(i as usize) {
        t[i as usize]
    } else {
        Seq::empty()
    }
}

/// The cache after storing, for each pending description in order, the
/// tags of its index.
pub open spec fn recorded(m: Map<Seq<char>, Seq<Seq<char>>>, pending: Seq<Seq<char>>, t: Map<usize, Seq<Seq<char>>>) -> Map<Seq<char>, Seq<Seq<char>>>
    decreases pending.len(),
{
    if pending.len() == 0 {
        m
    } else {
        recorded(m, pending.drop_last(), t).insert(pending.last(), tags_at(t, pending.len() - 1))
    }
}

/// The texts of JSON values that are all strings.
pub open spec fn all_strs(items: Seq<JsonTree>) -> bool {
    forall|i: int| 0 <= i < items.len() ==> (#[trigger] items[i]) is Str
}

/// The texts of string values.
pub open spec fn strs(items: Seq<JsonTree>) -> Seq<Seq<char>> {
    items.map_values(|x: JsonTree| match x {
        JsonTree::Str(t) => t,
        _ => Seq::empty(),
    })
}

/// A record made of an index value and a tags value: the index a
/// non-negative integer within `usize`, the tags all strings.
pub open spec fn record_parts(index: JsonTree, tags: JsonTree) -> Option<(usize, Seq<Seq<char>>)> {
    match (index, tags) {
        (JsonTree::Number(n), JsonTree::Array(items)) => match parse_u64(n) {
            Some(u) => if u <= usize::MAX && all_strs(items) {
                Some((u as usize, strs(items)))
            } else {
                None
            },
            None => None,
        },
        _ => None,
    }
}

/// One record of the tagging answer, as a derived `Deserialize` reads a
/// struct: an object with `index` and `tags` (other members ignored), or
/// an array of exactly those two values in that order.
pub open spec fn record_of(t: JsonTree) -> Option<(usize, Seq<Seq<char>>)> {
    match t {
        JsonTree::Array(xs) => if xs.len() == 2 {
            record_parts(xs[0], xs[1])
        } else {
            None
        },
        _ => match (get(t, "index"@), get(t, "tags"@)) {
            (Some(i), Some(tg)) => record_parts(i, tg),
            _ => None,
        },
    }
}

/// The `records` value of a tagging answer: the member of an object, or
/// the one value of an array of length one.
pub open spec fn records_value(t: JsonTree) -> Option<JsonTree> {
    match t {
        JsonTree::Array(xs) => if xs.len() == 1 {
            Some(xs[0])
        } else {
            None
        },
        _ => get(t, "records"@),
    }
}

/// The records of a parsed tagging answer (`{"records": [...]}`, or its
/// array form `[[...]]`); none when a record is malformed.
pub open spec fn tagging_records_of(t: JsonTree) -> Option<Seq<(usize, Seq<Seq<char>>)>> {
    match records_value(t) {
        Some(JsonTree::Array(rs)) => if forall|i: int| 0 <= i < rs.len() ==> (#[trigger] record_of(rs[i])) is Some {
            Some(Seq::new(rs.len(), |i: int| record_of(rs[i])->0))
        } else {
            None
        },
        _ => None,
    }
}

fn record_from_parts(index: &JsonValue, tags_value: &JsonValue) -> (r: Option<TaggingRecord>)
    ensures
        r matches Some(x) ==> record_parts(index@, tags_value@) == Some((x.index, views(x.tags@))),
        r is None ==> record_parts(index@, tags_value@) is None,
{
    let n = match index {
        JsonValue::Number(n) => n,
        _ => return None,
    };
    let items = match tags_value {
        JsonValue::Array(items) => items,
        _ => return None,
    };
    let u = match parse_u64_chars(&chars_of(n.as_str())) {
        Some(u) => u,
        None => return None,
    };
    if u > usize::MAX as u64 {
        return None;
    }
    let ghost ts = trees_of(items@);
    proof {
        lemma_trees_of(items@);
    }
    let mut tags: Vec<String> = Vec::new();
    let mut i: usize = 0;
    while i < items.len()
        invariant
            ts == trees_of(items@),
            ts.len() == items.len(),
            forall|k: int| 0 <= k < items.len() ==> #[trigger] ts[k] == items@[k]@,
            index@ == JsonTree::Number(n@),
            tags_value@ == JsonTree::Array(ts),
            parse_u64(n@) == Some(u),
            u <= usize::MAX,
            i <= items.len(),
            tags@.len() == i,
            forall|k: int| 0 <= k < i ==> #[trigger] ts[k] == JsonTree::Str(tags@[k]@),
        decreases items.len() - i,
    {
        match items[i].as_str() {
            Some(t) => tags.push(t.clone()),
            None => {
                assert(!(ts[i as int] is Str));
                assert(!all_strs(ts));
                return None;
            },
        }
        i = i + 1;
    }
    assert(all_strs(ts));
    assert forall|k: int| 0 <= k < ts.len() implies #[trigger] views(tags@)[k] == strs(ts)[k] by {
        assert(ts[k] == JsonTree::Str(tags@[k]@));
    }
    assert(views(tags@) == strs(ts));
    Some(TaggingRecord { index: u as usize, tags })
}

fn record_from(v: &JsonValue) -> (r: Option<TaggingRecord>)
    ensures
        r matches Some(x) ==> record_of(v@) == Some((x.index, views(x.tags@))),
        r is None ==> record_of(v@) is None,
{
    match v {
        JsonValue::Array(xs) => {
            proof {
                lemma_trees_of(xs@);
            }
            if xs.len() == 2 {
                record_from_parts(&xs[0], &xs[1])
            } else {
                None
            }
        },
        _ => match (v.get("index"), v.get("tags")) {
            (Some(i), Some(t)) => record_from_parts(i, t),
            _ => None,
        },
    }
}

/// The records of a parsed tagging answer, or none when it is malformed.
pub fn tagging_records(v: &JsonValue) -> (r: Option<Vec<TaggingRecord>>)
    ensures
        r matches Some(rs) ==> tagging_records_of(v@) == Some(record_views(rs@)),
        r is None ==> tagging_records_of(v@) is None,
{
    let records: Option<&JsonValue> = match v {
        JsonValue::Array(xs) => {
            proof {
                lemma_trees_of(xs@);
            }
            if xs.len() == 1 {
                Some(&xs[0])
            } else {
                None
            }
        },
        _ => v.get("records"),
    };
    let items = match records {
        Some(JsonValue::Array(items)) => items,
        _ => return None,
    };
    let ghost ts = trees_of(items@);
    proof {
        lemma_trees_of(items@);
    }
    let mut out: Vec<TaggingRecord> = Vec::new();
    let mut i: usize = 0;
    while i < items.len()
        invariant
            ts == trees_of(items@),
            ts.len() == items.len(),
            forall|k: int| 0 <= k < items.len() ==> #[trigger] ts[k] == items@[k]@,
            records_value(v@) == Some(JsonTree::Array(ts)),
            i <= items.len(),
            out@.len() == i,
            forall|k: int| 0 <= k < i ==> #[trigger] record_of(ts[k]) == Some((out@[k].index, views(out@[k].tags@))),
        decreases items.len() - i,
    {
        match record_from(&items[i]) {
            Some(x) => out.push(x),
            None => {
                assert(record_of(ts[i as int]) is None);
                return None;
            },
        }
        i = i + 1;
    }
    assert(forall|k: int| 0 <= k < ts.len() ==> (#[trigger] record_of(ts[k])) is Some);
    assert(Seq::new(ts.len(), |k: int| record_of(ts[k])->0) == record_views(out@));
    Some(out)
}

/// Stores the model's tags for each pending description: the description
/// at index `i` gets the tags recorded for `i`, or none.
pub fn record_job_tags(cache: &mut JobTagCache, pending: &Vec<String>, tags: &TagsByIndex)
    ensures
        final(cache)@ == recorded(old(cache)@, views(pending@), tags@),
{
    let ghost ps = views(pending@);
    let mut i: usize = 0;
    assert(ps.take(0) == Seq::<Seq<char>>::empty());
    while i < pending.len()
        invariant
            ps == views(pending@),
            i <= pending.len(),
            cache@ == recorded(old(cache)@, ps.take(i as int), tags@),
        decreases pending.len() - i,
    {
        let t = tags.tags_for(i);
        assert(views(t@) == tags_at(tags@, i as int));
        cache.insert(pending[i].clone(), t);
        assert(ps.take(i + 1).drop_last() == ps.take(i as int));
        assert(ps.take(i + 1).last() == ps[i as int]);
        i = i + 1;
    }
    assert(ps.take(pending.len() as int) == ps);
}


/// The description of the first group with the job `job`.
pub open spec fn description_for(gs: Seq<JobGroupView>, job: Seq<char>) -> Option<Seq<char>>
    decreases gs.len(),
{
    if gs.len() == 0 {
        None
    } else if gs[0].job == job {
        Some(gs[0].description)
    } else {
        description_for(gs.drop_first(), job)
    }
}

/// The tags that `m` holds for the description `d`, or none.
pub open spec fn cached_tags(m: Map<Seq<char>, Seq<Seq<char>>>, d: Option<Seq<char>>) -> Seq<Seq<char>> {
    match d {
        Some(d) => if m.contains_key(d) { m[d] } else { Seq::empty() },
        None => Seq::empty(),
    }
}

/// A candidate with tags.
pub open spec fn tagged_of(c: CandidateView, tags: Seq<Seq<char>>) -> VerificationPersonView {
    VerificationPersonView {
        name: c.name,
        surname: c.surname,
        gender: c.gender,
        born: c.born,
        city: c.city,
        tags: tags,
    }
}

/// Each candidate with the tags cached for the description of the job.
pub open spec fn tagged_candidates(
    cs: Seq<CandidateView>,
    gs: Seq<JobGroupView>,
    m: Map<Seq<char>, Seq<Seq<char>>>,
) -> Seq<VerificationPersonView> {
    Seq::new(cs.len(), |k: int| tagged_of(cs[k], cached_tags(m, description_for(gs, cs[k].job))))
}

fn description_of_job<'a>(groups: &'a Vec<JobGroup>, job: &String) -> (r: Option<&'a String>)
    ensures
        r matches Some(d) ==> description_for(group_views(groups@), job@) == Some(d@),
        r is None ==> description_for(group_views(groups@), job@) is None,
{
    let ghost gs = group_views(groups@);
    let mut i: usize = 0;
    assert(gs.skip(0) == gs);
    while i < groups.len()
        invariant
            gs == group_views(groups@),
            i <= groups.len(),
            description_for(gs, job@) == description_for(gs.skip(i as int), job@),
        decreases groups.len() - i,
    {
        assert(gs.skip(i as int)[0] == groups@[i as int]@);
        if groups[i].job == *job {
            return Some(&groups[i].description);
        }
        assert(gs.skip(i as int).drop_first() == gs.skip(i + 1));
        i = i + 1;
    }
    None
}

/// Each candidate, in order, with the tags that the cache holds for the
/// description of the candidate's job.
pub fn tag_candidates(candidates: &[Candidate], groups: &Vec<JobGroup>, cache: &JobTagCache) -> (r: Vec<VerificationPerson>)
    ensures
        tagged_views(r@) == tagged_candidates(candidate_views(candidates@), group_views(groups@), cache@),
{
    let ghost cs = candidate_views(candidates@);
    let ghost want = tagged_candidates(cs, group_views(groups@), cache@);
    let mut r: Vec<VerificationPerson> = Vec::new();
    let mut i: usize = 0;
    while i < candidates.len()
        invariant
            cs == candidate_views(candidates@),
            want == tagged_candidates(cs, group_views(groups@), cache@),
            i <= candidates.len(),
            r@.len() == i,
            forall|k: int| 0 <= k < i ==> (#[trigger] r@[k])@ == want[k],
        decreases candidates.len() - i,
    {
        let c = &candidates[i];
        assert(cs[i as int] == c@);
        let d = description_of_job(groups, &c.job);
        let tags = match d {
            Some(d) => match cache.get(d) {
                Some(t) => crate::suspect_selection::copy_strings(t),
                None => Vec::new(),
            },
            None => Vec::new(),
        };
        assert(views(tags@) == cached_tags(cache@, description_for(group_views(groups@), c@.job)));
        r.push(VerificationPerson {
            name: c.name.clone(),
            surname: c.surname.clone(),
            gender: c.gender.clone(),
            born: c.born,
            city: c.city.clone(),
            tags,
        });
        assert(r@[i as int]@ == want[i as int]);
        i = i + 1;
    }
    assert(tagged_views(r@) == want);
    r
}


/// The cache as a sorted table: keys strictly increasing, covering exactly
/// the cached descriptions, each with its tags normalized (a `BTreeMap`
/// of normalized entries, as the cache file is written).
pub open spec fn ordered_cache(keys: Seq<Seq<char>>, vals: Seq<Seq<Seq<char>>>, m: Map<Seq<char>, Seq<Seq<char>>>) -> bool {
    &&& keys.len() == vals.len()
    &&& strictly_sorted(keys)
    &&& keys.to_set() == m.dom()
    &&& forall|g: int| 0 <= g < keys.len() ==> #[trigger] vals[g] == sorted_unique(m[keys[g]])
}

/// The cache's entries sorted by description, each with normalized tags.
pub fn ordered_entries(cache: &JobTagCache) -> (r: Vec<(String, Vec<String>)>)
    ensures
        ordered_cache(
            r@.map_values(|e: (String, Vec<String>)| e.0@),
            r@.map_values(|e: (String, Vec<String>)| views(e.1@)),
            cache@,
        ),
{
    let ghost es = cache.entries@;
    let mut keys: Vec<String> = Vec::new();
    let mut vals: Vec<Vec<String>> = Vec::new();
    let mut i: usize = 0;
    assert(es.take(0) == Seq::<(String, Vec<String>)>::empty());
    assert(views(keys@).to_set() == cache_map(es.take(0)).dom());
    while i < cache.entries.len()
        invariant
            es == cache.entries@,
            i <= es.len(),
            keys@.len() == vals@.len(),
            strictly_sorted(views(keys@)),
            views(keys@).to_set() == cache_map(es.take(i as int)).dom(),
            forall|g: int| 0 <= g < keys@.len() ==> cache_map(es.take(i as int))[#[trigger] views(keys@)[g]] == nested_views(vals@)[g],
        decreases es.len() - i,
    {
        let ghost m = cache_map(es.take(i as int));
        let ghost old_keys = views(keys@);
        let ghost old_vals = nested_views(vals@);
        let key = &cache.entries[i].0;
        let val = crate::suspect_selection::copy_strings(&cache.entries[i].1);
        let ghost kv = key@;
        let ghost vv = views(val@);
        assert(es.take(i + 1).drop_last() == es.take(i as int));
        assert(es.take(i + 1).last() == es[i as int]);
        assert(cache_map(es.take(i + 1)) == m.insert(kv, vv));
        let (p, found) = sorted_slot(&keys, key);
        if found {
            vals.remove(p);
            vals.insert(p, val);
            proof {
                let nv = nested_views(vals@);
                assert(nv[p as int] == vv);
                assert(old_keys[p as int] == kv);
                assert forall|g: int| 0 <= g < keys@.len() implies m.insert(kv, vv)[#[trigger] views(keys@)[g]] == nv[g] by {
                    assert(views(keys@)[g] == old_keys[g]);
                    if g != p {
                        assert(nv[g] == old_vals[g]);
                        if old_keys[g] == kv {
                            if g < p {
                                assert(seq_less(old_keys[g], old_keys[p as int]));
                            } else {
                                assert(seq_less(old_keys[p as int], old_keys[g]));
                            }
                            lemma_less_irreflexive(kv);
                        }
                    }
                }
                assert(old_keys.to_set().insert(kv) == old_keys.to_set()) by {
                    assert(old_keys[p as int] == kv);
                    assert(old_keys.to_set().contains(kv));
                }
            }
        } else {
            let k = key.clone();
            keys.insert(p, k);
            vals.insert(p, val);
            proof {
                let nk = views(keys@);
                let nv = nested_views(vals@);
                assert(nk == old_keys.take(p as int).push(kv) + old_keys.skip(p as int));
                assert(nv == old_vals.take(p as int).push(vv) + old_vals.skip(p as int));
                assert forall|a: int, b: int| 0 <= a < b < nk.len() implies seq_less(#[trigger] nk[a], #[trigger] nk[b]) by {
                    if b > p {
                        if b > p + 1 {
                            lemma_less_transitive(kv, old_keys[p as int], nk[b]);
                        }
                        assert(seq_less(kv, nk[b]));
                        if a < p {
                            lemma_less_transitive(nk[a], kv, nk[b]);
                        }
                    }
                }
                assert forall|g: int| 0 <= g < nk.len() implies m.insert(kv, vv)[#[trigger] nk[g]] == nv[g] by {
                    if g != p {
                        let og = if g < p { g } else { g - 1 };
                        assert(nk[g] == old_keys[og]);
                        assert(nv[g] == old_vals[og]);
                        assert(old_keys[og] != kv) by {
                            if old_keys[og] == kv {
                                assert(old_keys.contains(kv));
                            }
                        }
                        assert(m[old_keys[og]] == old_vals[og]);
                    }
                }
                assert(nk.to_set() == old_keys.to_set().insert(kv)) by {
                    assert forall|e: Seq<char>| nk.to_set().contains(e) <==> old_keys.to_set().insert(kv).contains(e) by {
                        if nk.to_set().contains(e) {
                            let q = choose|q: int| 0 <= q < nk.len() && nk[q] == e;
                            if q < p {
                                assert(old_keys[q] == e);
                            } else if q > p {
                                assert(old_keys[q - 1] == e);
                            }
                        }
                        if old_keys.to_set().contains(e) {
                            let q = choose|q: int| 0 <= q < old_keys.len() && old_keys[q] == e;
                            if q < p {
                                assert(nk[q] == e);
                            } else {
                                assert(nk[q + 1] == e);
                            }
                        }
                        if e == kv {
                            assert(nk[p as int] == e);
                        }
                    }
                }
            }
        }
        i = i + 1;
    }
    assert(es.take(es.len() as int) == es);
    let ghost fk = views(keys@);
    let ghost fv = nested_views(vals@);
    let mut r: Vec<(String, Vec<String>)> = Vec::new();
    let mut j: usize = 0;
    while j < keys.len()
        invariant
            fk == views(keys@),
            fv == nested_views(vals@),
            keys@.len() == vals@.len(),
            j <= keys.len(),
            r@.len() == j,
            forall|g: int| 0 <= g < j ==> (#[trigger] r@[g]).0@ == fk[g] && views(r@[g].1@) == sorted_unique(fv[g]),
        decreases keys.len() - j,
    {
        let tags = crate::suspect_selection::copy_strings(&vals[j]);
        let normalized = crate::suspect_selection::normalize_tags(tags);
        r.push((keys[j].clone(), normalized));
        j = j + 1;
    }
    assert(r@.map_values(|e: (String, Vec<String>)| e.0@) == fk);
    r
}

/// A cache from the older file layout (description to a bare tag list):
/// each entry with its tags normalized.
pub fn legacy_cache(entries: Vec<(String, Vec<String>)>) -> (r: JobTagCache)
    ensures
        r.entries@.len() == entries@.len(),
        forall|i: int| 0 <= i < entries@.len() ==> (#[trigger] r.entries@[i]).0@ == entries@[i].0@
            && views(r.entries@[i].1@) == sorted_unique(views(entries@[i].1@)),
{
    let mut out: Vec<(String, Vec<String>)> = Vec::new();
    let mut i: usize = 0;
    while i < entries.len()
        invariant
            i <= entries.len(),
            out@.len() == i,
            forall|k: int| 0 <= k < i ==> (#[trigger] out@[k]).0@ == entries@[k].0@
                && views(out@[k].1@) == sorted_unique(views(entries@[k].1@)),
        decreases entries.len() - i,
    {
        let tags = crate::suspect_selection::copy_strings(&entries[i].1);
        let normalized = crate::suspect_selection::normalize_tags(tags);
        out.push((entries[i].0.clone(), normalized));
        i = i + 1;
    }
    JobTagCache { entries: out }
}


/// The tags a job may get.
pub const AVAILABLE_TAGS: [&'static str; 7] = [
    "IT",
    "transport",
    "edukacja",
    "medycyna",
    "praca z ludźmi",
    "praca z pojazdami",
    "praca fizyczna",
];

/// What each tag means, one `- tag: meaning` line per tag.
pub const TAG_DESCRIPTIONS: &'static str = "- IT: prace związane z oprogramowaniem, systemami, danymi, algorytmami, elektroniką lub cyberbezpieczeństwem\n- transport: prace związane z logistyką, przepływem towarów, planowaniem dostaw, dystrybucją, magazynowaniem lub organizacją przewozu\n- edukacja: prace związane z nauczaniem, wychowaniem, szkoleniem i przekazywaniem wiedzy\n- medycyna: prace związane ze zdrowiem, leczeniem, diagnostyką, terapią lub badaniami medycznymi\n- praca z ludźmi: prace wymagające bezpośredniej pracy z ludźmi, opieki, wsparcia, terapii, obsługi lub komunikacji interpersonalnej\n- praca z pojazdami: prace związane z pojazdami, ich naprawą, budową, obsługą lub systemami motoryzacyjnymi\n- praca fizyczna: prace manualne, instalacyjne, remontowe, budowlane, rzemieślnicze lub wymagające pracy rękami";

/// The instructions for the tagging model.
pub const TAGGING_SYSTEM_PROMPT: &'static str = "Przypisujesz tagi do opisów zawodów. Używaj wyłącznie tagów z dozwolonej listy. Możesz przypisać wiele tagów do jednego opisu. Nie zgaduj ponad treść opisu. Nazwiska i imiona osób traktuj jako dodatkowy kontekst opisu stanowiska. Zwróć dokładnie jeden rekord wynikowy dla każdego wejściowego indeksu.";

/// Each description preceded by its index: `i: description`.
pub open spec fn numbered(ds: Seq<Seq<char>>) -> Seq<Seq<char>> {
    Seq::new(ds.len(), |i: int| decimal(i as nat) + ": "@ + ds[i])
}

/// The user prompt that asks for the tags of the descriptions `ds`.
pub open spec fn tagging_prompt(ds: Seq<Seq<char>>) -> Seq<char> {
    "Dostępne tagi i ich znaczenie:\n"@ + TAG_DESCRIPTIONS@ + "\n\nOpisy stanowisk do otagowania:\n"@
        + join(numbered(ds), "\n\n"@)
}

/// The user prompt that asks for the tags of the pending descriptions.
pub fn tagging_user_prompt(pending: &Vec<String>) -> (r: String)
    ensures
        r@ == tagging_prompt(views(pending@)),
{
    let mut lines: Vec<String> = Vec::new();
    let mut i: usize = 0;
    while i < pending.len()
        invariant
            i <= pending.len(),
            lines@.len() == i,
            forall|k: int| 0 <= k < i ==> (#[trigger] lines@[k])@ == decimal(k as nat) + ": "@ + pending@[k]@,
        decreases pending.len() - i,
    {
        let digits = decimal_chars(i);
        let mut line = string_of(&digits);
        push_str(&mut line, ": ");
        push_str(&mut line, pending[i].as_str());
        lines.push(line);
        i = i + 1;
    }
    assert(views(lines@) == numbered(views(pending@)));
    let mut r = String::from_str("Dostępne tagi i ich znaczenie:\n");
    push_str(&mut r, TAG_DESCRIPTIONS);
    push_str(&mut r, "\n\nOpisy stanowisk do otagowania:\n");
    let joined = join_strings(&lines, "\n\n");
    push_str(&mut r, joined.as_str());
    r
}

/// The JSON schema of the tagging answer: records of an index and tags
/// from the allowed list.
pub open spec fn tagging_schema() -> JsonTree {
    JsonTree::Object(seq![
        ("type"@, JsonTree::Str("object"@)),
        ("properties"@, JsonTree::Object(seq![
            ("records"@, JsonTree::Object(seq![
                ("type"@, JsonTree::Str("array"@)),
                ("items"@, JsonTree::Object(seq![
                    ("type"@, JsonTree::Str("object"@)),
                    ("properties"@, JsonTree::Object(seq![
                        ("index"@, JsonTree::Object(seq![("type"@, JsonTree::Str("integer"@))])),
                        ("tags"@, JsonTree::Object(seq![
                            ("type"@, JsonTree::Str("array"@)),
                            ("items"@, JsonTree::Object(seq![
                                ("type"@, JsonTree::Str("string"@)),
                                ("enum"@, JsonTree::Array(Seq::new(7, |i: int| JsonTree::Str(AVAILABLE_TAGS@[i]@)))),
                            ])),
                        ])),
                    ])),
                    ("required"@, JsonTree::Array(seq![JsonTree::Str("index"@), JsonTree::Str("tags"@)])),
                    ("additionalProperties"@, JsonTree::Bool(false)),
                ])),
            ])),
        ])),
        ("required"@, JsonTree::Array(seq![JsonTree::Str("records"@)])),
        ("additionalProperties"@, JsonTree::Bool(false)),
    ])
}

/// The JSON schema of the tagging answer.
pub fn tagging_schema_value() -> (r: JsonValue)
    ensures
        r@ == tagging_schema(),
{
    let tags_list: [&str; 7] = AVAILABLE_TAGS;
    let enum_values = text_array(&tags_list);
    let tag_items = object2("type", JsonValue::text("string"), "enum", enum_values);
    let tags = object2("type", JsonValue::text("array"), "items", tag_items);
    let index = object1("type", JsonValue::text("integer"));
    let properties = object2("index", index, "tags", tags);
    let required = array2(JsonValue::text("index"), JsonValue::text("tags"));
    let record = object4(
        "type", JsonValue::text("object"),
        "properties", properties,
        "required", required,
        "additionalProperties", JsonValue::Bool(false),
    );
    let records = object2("type", JsonValue::text("array"), "items", record);
    object4(
        "type", JsonValue::text("object"),
        "properties", object1("records", records),
        "required", array1(JsonValue::text("records")),
        "additionalProperties", JsonValue::Bool(false),
    )
}

/// The request body that asks the model `model` for the tags of the
/// pending descriptions.
pub fn tagging_payload(model: &str, pending: &Vec<String>) -> (r: JsonValue)
    ensures
        r@ == responses_payload(
            model@,
            TAGGING_SYSTEM_PROMPT@,
            tagging_prompt(views(pending@)),
            "job_tagging"@,
            true,
            tagging_schema(),
        ),
{
    let prompt = tagging_user_prompt(pending);
    LlmPayloadService::build_responses_payload(
        model,
        TAGGING_SYSTEM_PROMPT,
        prompt.as_str(),
        JsonSchemaFormat { name: String::from_str("job_tagging"), schema: tagging_schema_value(), strict: true },
    )
}


/// Recording tags keeps every description that was cached, and caches
/// every pending description.
pub proof fn law_recorded_covers(m: Map<Seq<char>, Seq<Seq<char>>>, pending: Seq<Seq<char>>, t: Map<usize, Seq<Seq<char>>>)
    ensures
        forall|i: int| 0 <= i < pending.len() ==> recorded(m, pending, t).contains_key(#[trigger] pending[i]),
        forall|k: Seq<char>| m.contains_key(k) ==> #[trigger] recorded(m, pending, t).contains_key(k),
        forall|k: Seq<char>| !pending.contains(k) ==> #[trigger] recorded(m, pending, t).contains_key(k) == m.contains_key(k)
            && (m.contains_key(k) ==> recorded(m, pending, t)[k] == m[k]),
    decreases pending.len(),
{
    if pending.len() > 0 {
        let p = pending.drop_last();
        law_recorded_covers(m, p, t);
        assert forall|i: int| 0 <= i < pending.len() implies recorded(m, pending, t).contains_key(#[trigger] pending[i]) by {
            if i < pending.len() - 1 {
                assert(p[i] == pending[i]);
            }
        }
        assert forall|k: Seq<char>| !pending.contains(k) implies #[trigger] recorded(m, pending, t).contains_key(k) == m.contains_key(k)
            && (m.contains_key(k) ==> recorded(m, pending, t)[k] == m[k]) by {
            if p.contains(k) {
                let j = choose|j: int| 0 <= j < p.len() && p[j] == k;
                assert(pending[j] == k);
            }
            assert(!p.contains(k));
            assert(recorded(m, p, t).contains_key(k) == m.contains_key(k));
            assert(pending.last() != k) by {
                if pending.last() == k {
                    assert(pending[pending.len() - 1] == k);
                }
            }
        }
    }
}

/// When the pending descriptions are distinct, each is cached with the
/// tags the model gave its index.
pub proof fn law_recorded_reads_back(m: Map<Seq<char>, Seq<Seq<char>>>, pending: Seq<Seq<char>>, t: Map<usize, Seq<Seq<char>>>, i: int)
    requires
        0 <= i < pending.len(),
        pending.no_duplicates(),
    ensures
        recorded(m, pending, t)[pending[i]] == tags_at(t, i),
    decreases pending.len(),
{
    let p = pending.drop_last();
    if i < pending.len() - 1 {
        assert(p[i] == pending[i]);
        assert(p.no_duplicates());
        assert(pending.last() != pending[i]);
        law_recorded_reads_back(m, p, t, i);
    }
}

proof fn lemma_pending_of_covers(gs: Seq<JobGroupView>, m: Map<Seq<char>, Seq<Seq<char>>>, g: int)
    requires
        0 <= g < gs.len(),
        !m.contains_key(gs[g].description),
    ensures
        pending_of(gs, m).contains(gs[g].description),
    decreases gs.len(),
{
    let d = gs[g].description;
    if g == gs.len() - 1 {
        let p = pending_of(gs.drop_last(), m).push(d);
        assert(p[p.len() - 1] == d);
    } else {
        assert(gs.drop_last()[g] == gs[g]);
        lemma_pending_of_covers(gs.drop_last(), m, g);
        let q = pending_of(gs.drop_last(), m);
        let j = choose|j: int| 0 <= j < q.len() && q[j] == d;
        if !m.contains_key(gs.last().description) {
            assert(q.push(gs.last().description)[j] == d);
        }
    }
}

/// After the pending descriptions are recorded, every job group's
/// description has cached tags, so every candidate is tagged from the
/// cache.
pub proof fn law_every_job_tagged(gs: Seq<JobGroupView>, m: Map<Seq<char>, Seq<Seq<char>>>, t: Map<usize, Seq<Seq<char>>>)
    ensures
        forall|g: int| 0 <= g < gs.len() ==> recorded(m, pending_of(gs, m), t).contains_key(#[trigger] gs[g].description),
{
    let p = pending_of(gs, m);
    law_recorded_covers(m, p, t);
    assert forall|g: int| 0 <= g < gs.len() implies recorded(m, p, t).contains_key(#[trigger] gs[g].description) by {
        if !m.contains_key(gs[g].description) {
            lemma_pending_of_covers(gs, m, g);
            let j = choose|j: int| 0 <= j < p.len() && p[j] == gs[g].description;
            assert(recorded(m, p, t).contains_key(p[j]));
        }
    }
}

proof fn lemma_pending_of_none(gs: Seq<JobGroupView>, m: Map<Seq<char>, Seq<Seq<char>>>)
    requires
        forall|g: int| 0 <= g < gs.len() ==> m.contains_key(#[trigger] gs[g].description),
    ensures
        pending_of(gs, m).len() == 0,
    decreases gs.len(),
{
    if gs.len() > 0 {
        let rest = gs.drop_last();
        assert forall|g: int| 0 <= g < rest.len() implies m.contains_key(#[trigger] rest[g].description) by {
            assert(rest[g] == gs[g]);
        }
        lemma_pending_of_none(rest, m);
        assert(m.contains_key(gs[gs.len() - 1].description));
    }
}

/// Once the pending descriptions are recorded, a second run has nothing
/// left to ask the model.
pub proof fn law_second_run_asks_nothing(gs: Seq<JobGroupView>, m: Map<Seq<char>, Seq<Seq<char>>>, t: Map<usize, Seq<Seq<char>>>)
    ensures
        pending_of(gs, recorded(m, pending_of(gs, m), t)).len() == 0,
{
    law_every_job_tagged(gs, m, t);
    lemma_pending_of_none(gs, recorded(m, pending_of(gs, m), t));
}

/// The pending descriptions are descriptions of the groups that the cache
/// holds no tags for.
pub proof fn law_pending_uncached(gs: Seq<JobGroupView>, m: Map<Seq<char>, Seq<Seq<char>>>)
    ensures
        forall|i: int| 0 <= i < pending_of(gs, m).len() ==> !m.contains_key(#[trigger] pending_of(gs, m)[i]),
        forall|i: int| 0 <= i < pending_of(gs, m).len() ==> exists|g: int| 0 <= g < gs.len() && gs[g].description == #[trigger] pending_of(gs, m)[i],
        forall|g: int| 0 <= g < gs.len() && !m.contains_key(#[trigger] gs[g].description) ==> pending_of(gs, m).contains(gs[g].description),
    decreases gs.len(),
{
    if gs.len() > 0 {
        let rest = gs.drop_last();
        law_pending_uncached(rest, m);
        let p = pending_of(gs, m);
        let q = pending_of(rest, m);
        assert forall|i: int| 0 <= i < p.len() implies exists|g: int| 0 <= g < gs.len() && gs[g].description == #[trigger] p[i] by {
            if i < q.len() {
                assert(p[i] == q[i]);
                let g = choose|g: int| 0 <= g < rest.len() && rest[g].description == q[i];
                assert(gs[g] == rest[g]);
            } else {
                assert(p[i] == gs[gs.len() - 1].description);
            }
        }
        assert forall|i: int| 0 <= i < p.len() implies !m.contains_key(#[trigger] p[i]) by {
            if i < q.len() {
                assert(p[i] == q[i]);
            }
        }
        assert forall|g: int| 0 <= g < gs.len() && !m.contains_key(#[trigger] gs[g].description) implies p.contains(gs[g].description) by {
            lemma_pending_of_covers(gs, m, g);
        }
    }
}

/// The descriptions of cache entries.
pub open spec fn entry_keys(es: Seq<(String, Vec<String>)>) -> Seq<Seq<char>> {
    es.map_values(|e: (String, Vec<String>)| e.0@)
}

/// A cache read from entries with distinct descriptions, in any order,
/// holds exactly those entries.
pub proof fn law_cache_of_distinct_entries(es: Seq<(String, Vec<String>)>)
    requires
        entry_keys(es).no_duplicates(),
    ensures
        cache_map(es).dom() == entry_keys(es).to_set(),
        forall|i: int| 0 <= i < es.len() ==> cache_map(es)[#[trigger] es[i].0@] == views(es[i].1@),
    decreases es.len(),
{
    if es.len() > 0 {
        let d = es.drop_last();
        assert(entry_keys(d) == entry_keys(es).drop_last());
        assert(entry_keys(d).no_duplicates()) by {
            assert forall|i: int, j: int| 0 <= i < j < entry_keys(d).len() implies entry_keys(d)[i] != entry_keys(d)[j] by {
                assert(entry_keys(d)[i] == entry_keys(es)[i] && entry_keys(d)[j] == entry_keys(es)[j]);
            }
        }
        law_cache_of_distinct_entries(d);
        assert(entry_keys(es) == entry_keys(d).push(es.last().0@));
        entry_keys(d).lemma_push_to_set_commute(es.last().0@);
        assert forall|i: int| 0 <= i < es.len() implies cache_map(es)[#[trigger] es[i].0@] == views(es[i].1@) by {
            if i < es.len() - 1 {
                assert(es[i] == d[i]);
                assert(entry_keys(es)[i] != entry_keys(es)[es.len() - 1]);
            }
        }
    }
}

/// Loading the cache file that was saved from a cache (its entries
/// normalized, each description once, in whatever order the file is read)
/// gives back the cache with its tags normalized.
pub proof fn law_saved_cache_reloads(es: Seq<(String, Vec<String>)>, m: Map<Seq<char>, Seq<Seq<char>>>)
    requires
        entry_keys(es).no_duplicates(),
        entry_keys(es).to_set() == m.dom(),
        forall|i: int| 0 <= i < es.len() ==> views((#[trigger] es[i]).1@) == sorted_unique(m[es[i].0@]),
    ensures
        cache_map(es) == Map::new(|k: Seq<char>| m.dom().contains(k), |k: Seq<char>| sorted_unique(m[k])),
{
    law_cache_of_distinct_entries(es);
    let want = Map::new(|k: Seq<char>| m.dom().contains(k), |k: Seq<char>| sorted_unique(m[k]));
    assert(cache_map(es).dom() =~= want.dom());
    assert forall|k: Seq<char>| #[trigger] cache_map(es).contains_key(k) implies cache_map(es)[k] == want[k] by {
        assert(entry_keys(es).to_set().contains(k));
        let i = choose|i: int| 0 <= i < entry_keys(es).len() && entry_keys(es)[i] == k;
        assert(es[i].0@ == k);
    }
    assert(cache_map(es) =~= want);
}

/// What `ordered_entries` writes is such a table: distinct descriptions,
/// exactly the cached ones, each with its tags normalized.
pub proof fn law_ordered_entries_saveable(es: Seq<(String, Vec<String>)>, m: Map<Seq<char>, Seq<Seq<char>>>)
    requires
        ordered_cache(entry_keys(es), es.map_values(|e: (String, Vec<String>)| views(e.1@)), m),
    ensures
        entry_keys(es).no_duplicates(),
        entry_keys(es).to_set() == m.dom(),
        forall|i: int| 0 <= i < es.len() ==> views((#[trigger] es[i]).1@) == sorted_unique(m[es[i].0@]),
{
    let ks = entry_keys(es);
    assert forall|i: int, j: int| 0 <= i < j < ks.len() implies ks[i] != ks[j] by {
        assert(seq_less(ks[i], ks[j]));
        if ks[i] == ks[j] {
            lemma_less_irreflexive(ks[i]);
        }
    }
    assert forall|i: int| 0 <= i < es.len() implies views((#[trigger] es[i]).1@) == sorted_unique(m[es[i].0@]) by {
        assert(es.map_values(|e: (String, Vec<String>)| views(e.1@))[i] == views(es[i].1@));
        assert(ks[i] == es[i].0@);
    }
}


/// The records of the model's tagging answer text; none when the text is
/// not JSON or the answer is malformed.
pub fn read_tagging_records(text: &str) -> (r: Option<Vec<TaggingRecord>>)
    ensures
        json_of(text@) is None ==> r is None,
        json_of(text@) matches Some(t) ==> (match tagging_records_of(t) {
            Some(rs) => r matches Some(x) && record_views(x@) == rs,
            None => r is None,
        }),
{
    match parse_json(text) {
        Some(v) => tagging_records(&v),
        None => None,
    }
}


/// Tagging keeps every candidate, in order, with its own name, surname,
/// gender, birth year and city; its tags are those the cache holds for
/// the description of its job's group, or none.
pub proof fn law_tagging_keeps_candidates(cs: Seq<CandidateView>, gs: Seq<JobGroupView>, m: Map<Seq<char>, Seq<Seq<char>>>)
    ensures
        tagged_candidates(cs, gs, m).len() == cs.len(),
        forall|k: int| 0 <= k < cs.len() ==> {
            let p = #[trigger] tagged_candidates(cs, gs, m)[k];
            &&& p.name == cs[k].name
            &&& p.surname == cs[k].surname
            &&& p.gender == cs[k].gender
            &&& p.born == cs[k].born
            &&& p.city == cs[k].city
            &&& p.tags == (match description_for(gs, cs[k].job) {
                Some(d) => if m.contains_key(d) { m[d] } else { Seq::<Seq<char>>::empty() },
                None => Seq::<Seq<char>>::empty(),
            })
        },
{
}

/// The description found for a job is that of the first group doing it.
pub proof fn law_description_for(gs: Seq<JobGroupView>, job: Seq<char>)
    ensures
        description_for(gs, job) matches Some(d) ==> exists|g: int| 0 <= g < gs.len() && gs[g].job == job
            && gs[g].description == d && forall|h: int| 0 <= h < g ==> (#[trigger] gs[h]).job != job,
        description_for(gs, job) is None ==> forall|g: int| 0 <= g < gs.len() ==> (#[trigger] gs[g]).job != job,
    decreases gs.len(),
{
    if gs.len() > 0 {
        let rest = gs.drop_first();
        law_description_for(rest, job);
        if gs[0].job != job {
            if description_for(gs, job) is Some {
                let g = choose|g: int| 0 <= g < rest.len() && rest[g].job == job
                    && rest[g].description == description_for(gs, job)->0
                    && forall|h: int| 0 <= h < g ==> (#[trigger] rest[h]).job != job;
                assert(gs[g + 1] == rest[g]);
                assert forall|h: int| 0 <= h < g + 1 implies (#[trigger] gs[h]).job != job by {
                    if h > 0 {
                        assert(gs[h] == rest[h - 1]);
                    }
                }
            } else {
                assert forall|g: int| 0 <= g < gs.len() implies (#[trigger] gs[g]).job != job by {
                    if g > 0 {
                        assert(gs[g] == rest[g - 1]);
                    }
                }
            }
        }
    }
}


/// The pending descriptions of two runs of groups are those of the first,
/// then those of the second: the order of the groups is kept and no group
/// is skipped.
pub proof fn law_pending_concat(gs: Seq<JobGroupView>, hs: Seq<JobGroupView>, m: Map<Seq<char>, Seq<Seq<char>>>)
    ensures
        pending_of(gs + hs, m) == pending_of(gs, m) + pending_of(hs, m),
    decreases hs.len(),
{
    if hs.len() == 0 {
        assert(gs + hs == gs);
        assert(pending_of(gs, m) + pending_of(hs, m) == pending_of(gs, m));
    } else {
        law_pending_concat(gs, hs.drop_last(), m);
        assert((gs + hs).drop_last() == gs + hs.drop_last());
        assert((gs + hs).last() == hs.last());
        let d = hs.last().description;
        if !m.contains_key(d) {
            assert((pending_of(gs, m) + pending_of(hs.drop_last(), m)).push(d)
                == pending_of(gs, m) + pending_of(hs.drop_last(), m).push(d));
        }
    }
}

/// One group is pending exactly when the cache holds no tags for its
/// description.
pub proof fn law_pending_single(g: JobGroupView, m: Map<Seq<char>, Seq<Seq<char>>>)
    ensures
        pending_of(seq![g], m) == (if m.contains_key(g.description) {
            Seq::<Seq<char>>::empty()
        } else {
            seq![g.description]
        }),
{
    assert(seq![g].drop_last() == Seq::<JobGroupView>::empty());
    assert(seq![g].last() == g);
    assert(pending_of(Seq::<JobGroupView>::empty(), m) == Seq::<Seq<char>>::empty());
    assert(Seq::<Seq<char>>::empty().push(g.description) == seq![g.description]);
}

/// The position of the last record with the index `idx`.
pub open spec fn last_record(rs: Seq<(usize, Seq<Seq<char>>)>, idx: usize) -> Option<int>
    decreases rs.len(),
{
    if rs.len() == 0 {
        None
    } else if rs.last().0 == idx {
        Some(rs.len() - 1)
    } else {
        last_record(rs.drop_last(), idx)
    }
}

/// `last_record` is the last position holding the index, if any.
pub proof fn law_last_record(rs: Seq<(usize, Seq<Seq<char>>)>, idx: usize)
    ensures
        last_record(rs, idx) matches Some(k) ==> 0 <= k < rs.len() && rs[k].0 == idx
            && forall|j: int| k < j < rs.len() ==> (#[trigger] rs[j]).0 != idx,
        last_record(rs, idx) is None ==> forall|j: int| 0 <= j < rs.len() ==> (#[trigger] rs[j]).0 != idx,
    decreases rs.len(),
{
    if rs.len() > 0 {
        let d = rs.drop_last();
        law_last_record(d, idx);
        if rs.last().0 != idx {
            assert forall|j: int| 0 <= j < rs.len() - 1 implies (#[trigger] rs[j]).0 == d[j].0 by {
                assert(d[j] == rs[j]);
            }
        }
    }
}

/// The tags recorded for an index are the normalized tags of the last
/// record with that index; an index no record has gets no tags.
pub proof fn law_records_last_wins(rs: Seq<(usize, Seq<Seq<char>>)>, idx: usize)
    ensures
        last_record(rs, idx) matches Some(k) ==> records_map(rs).contains_key(idx)
            && records_map(rs)[idx] == sorted_unique(rs[k].1),
        last_record(rs, idx) is None ==> !records_map(rs).contains_key(idx),
    decreases rs.len(),
{
    if rs.len() > 0 {
        let d = rs.drop_last();
        law_records_last_wins(d, idx);
        law_last_record(d, idx);
        if rs.last().0 != idx {
            if last_record(d, idx) is Some {
                let k = last_record(d, idx)->0;
                assert(d[k] == rs[k]);
            }
        }
    }
}


/// A record reads the same written as an object `{"index": i, "tags": t}`
/// (with any other members) or as the array `[i, t]`; the answer reads the
/// same as `{"records": rs}` or `[rs]`. A record is kept exactly when its
/// index is a whole number within `usize` and its tags are all strings.
pub proof fn law_record_forms(i: JsonTree, t: JsonTree, rest: Seq<(Seq<char>, JsonTree)>, rs: JsonTree)
    ensures
        record_of(JsonTree::Array(seq![i, t])) == record_of(JsonTree::Object(seq![("index"@, i), ("tags"@, t)] + rest)),
        tagging_records_of(JsonTree::Array(seq![rs])) == tagging_records_of(JsonTree::Object(seq![("records"@, rs)])),
        record_of(JsonTree::Array(seq![i, t])) is Some <==> (match (i, t) {
            (JsonTree::Number(n), JsonTree::Array(items)) => parse_u64(n) is Some && parse_u64(n)->0 <= usize::MAX
                && forall|k: int| 0 <= k < items.len() ==> (#[trigger] items[k]) is Str,
            _ => false,
        }),
{
    reveal_strlit("index");
    reveal_strlit("tags");
    reveal_strlit("records");
    let es = seq![("index"@, i), ("tags"@, t)] + rest;
    assert(es[0].0 == "index"@);
    assert(es[1].0 == "tags"@);
    assert("index"@ != "tags"@) by {
        assert("index"@.len() != "tags"@.len());
    }
    assert(key_index(es, "index"@, 0) == Some(0int));
    assert(key_index(es, "tags"@, 1) == Some(1int));
    assert(key_index(es, "tags"@, 0) == Some(1int));
    let os = seq![("records"@, rs)];
    assert(key_index(os, "records"@, 0) == Some(0int));
}

} // verus!
