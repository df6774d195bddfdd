//! Selecting suspects from a list of people: reading them from CSV,
//! keeping the young men born in Grudziądz, tagging their jobs and keeping
//! those who work with transport.

use vstd::prelude::*;
use crate::csv_service::{CsvService, CsvRecords, CsvError, csv_read, zip_fields, pair_views, first_failure};
use crate::text::{decimal, signed_decimal, lemma_decimal_digits, law_parse_i32_decimal, law_first_segment_of, is_digit, views, chars_of, strictly_sorted, insert_sorted, sorted_unique, lemma_sorted_unique_is, lemma_sorted_enumeration_exists, parse_i32, first_segment, parse_i32_chars, first_segment_chars};

verus! {

/// One person as listed in the CSV file.
#[derive(Debug, Clone, PartialEq)]
pub struct Person {
    pub name: String,
    pub surname: String,
    pub gender: String,
    pub birth_date: String,
    pub birth_place: String,
    pub job: String,
}

/// The text of a person's fields.
pub struct PersonView {
    pub name: Seq<char>,
    pub surname: Seq<char>,
    pub gender: Seq<char>,
    pub birth_date: Seq<char>,
    pub birth_place: Seq<char>,
    pub job: Seq<char>,
}

impl View for Person {
    type V = PersonView;

    open spec fn view(&self) -> PersonView {
        PersonView {
            name: self.name@,
            surname: self.surname@,
            gender: self.gender@,
            birth_date: self.birth_date@,
            birth_place: self.birth_place@,
            job: self.job@,
        }
    }
}

/// Why people could not be read or selected.
#[derive(Debug, PartialEq, Eq, Structural)]
pub enum PeopleError {
    /// The CSV text could not be read.
    Csv(CsvError),
    /// A row lacks one of the person fields.
    InvalidRecord,
    /// A birth date does not start with a number.
    InvalidBirthYear,
}

impl PeopleError {
    /// The human-readable text of the error.
    pub fn message(&self) -> (r: String)
        ensures
            r@ == (match self {
                PeopleError::Csv(CsvError::Headers) => "Failed to read CSV headers"@,
                PeopleError::Csv(CsvError::Record) => "Failed to parse CSV record"@,
                PeopleError::InvalidRecord => "Invalid CSV record"@,
                PeopleError::InvalidBirthYear => "Invalid birth year"@,
            }),
    {
        match self {
            PeopleError::Csv(CsvError::Headers) => String::from_str("Failed to read CSV headers"),
            PeopleError::Csv(CsvError::Record) => String::from_str("Failed to parse CSV record"),
            PeopleError::InvalidRecord => String::from_str("Invalid CSV record"),
            PeopleError::InvalidBirthYear => String::from_str("Invalid birth year"),
        }
    }
}

/// The value of the last field named `key` (a later column with the same
/// header replaces an earlier one).
pub open spec fn last_value(fs: Seq<(Seq<char>, Seq<char>)>, key: Seq<char>) -> Option<Seq<char>>
    decreases fs.len(),
{
    if fs.len() == 0 {
        None
    } else if fs.last().0 == key {
        Some(fs.last().1)
    } else {
        last_value(fs.drop_last(), key)
    }
}

/// The person that a row's fields describe, when all six fields are there.
pub open spec fn person_of_fields(fs: Seq<(Seq<char>, Seq<char>)>) -> Option<PersonView> {
    if last_value(fs, "name"@) is Some && last_value(fs, "surname"@) is Some && last_value(fs, "gender"@) is Some
        && last_value(fs, "birthDate"@) is Some && last_value(fs, "birthPlace"@) is Some && last_value(fs, "job"@) is Some {
        Some(PersonView {
            name: last_value(fs, "name"@)->0,
            surname: last_value(fs, "surname"@)->0,
            gender: last_value(fs, "gender"@)->0,
            birth_date: last_value(fs, "birthDate"@)->0,
            birth_place: last_value(fs, "birthPlace"@)->0,
            job: last_value(fs, "job"@)->0,
        })
    } else {
        None
    }
}

/// The people of the rows `rs`, in order; the first row that fails to read
/// or lacks a field decides the error.
pub open spec fn people_of_rows(hs: Seq<Seq<char>>, rs: Seq<Option<Seq<Seq<char>>>>) -> Result<Seq<PersonView>, PeopleError>
    decreases rs.len(),
{
    if rs.len() == 0 {
        Ok(Seq::empty())
    } else {
        match people_of_rows(hs, rs.drop_last()) {
            Err(e) => Err(e),
            Ok(ps) => match rs.last() {
                None => Err(PeopleError::Csv(CsvError::Record)),
                Some(vs) => match person_of_fields(zip_fields(hs, vs)) {
                    None => Err(PeopleError::InvalidRecord),
                    Some(p) => Ok(ps.push(p)),
                },
            },
        }
    }
}

/// The people listed in the CSV text.
pub open spec fn people_of_csv(text: Seq<char>) -> Result<Seq<PersonView>, PeopleError> {
    match csv_read(text) {
        None => Err(PeopleError::Csv(CsvError::Headers)),
        Some((hs, rs)) => people_of_rows(hs, rs),
    }
}

/// The views of a sequence of people.
pub open spec fn person_views(s: Seq<Person>) -> Seq<PersonView> {
    s.map_values(|p: Person| p@)
}

proof fn lemma_people_prefix_err(hs: Seq<Seq<char>>, rs: Seq<Option<Seq<Seq<char>>>>, j: int)
    requires
        0 <= j <= rs.len(),
        people_of_rows(hs, rs.take(j)) is Err,
    ensures
        people_of_rows(hs, rs) == people_of_rows(hs, rs.take(j)),
    decreases rs.len(),
{
    if j == rs.len() {
        assert(rs.take(j) == rs);
    } else {
        assert(rs.drop_last().take(j) == rs.take(j));
        lemma_people_prefix_err(hs, rs.drop_last(), j);
    }
}

/// The value of the last field named `key`.
fn last_value_of(fields: &Vec<(String, String)>, key: &str) -> (r: Option<String>)
    ensures
        r matches Some(v) ==> last_value(pair_views(fields@), key@) == Some(v@),
        r is None ==> last_value(pair_views(fields@), key@) is None,
{
    let k = String::from_str(key);
    let ghost fs = pair_views(fields@);
    let mut i: usize = fields.len();
    assert(fs.take(fields.len() as int) == fs);
    while i > 0
        invariant
            i <= fields.len(),
            fs == pair_views(fields@),
            k@ == key@,
            last_value(fs, key@) == last_value(fs.take(i as int), key@),
        decreases i,
    {
        assert(fs.take(i as int).drop_last() == fs.take(i - 1));
        if fields[i - 1].0 == k {
            return Some(fields[i - 1].1.clone());
        }
        i = i - 1;
    }
    None
}

/// The person that a row's fields describe.
fn person_from_fields(fields: &Vec<(String, String)>) -> (r: Option<Person>)
    ensures
        r matches Some(p) ==> person_of_fields(pair_views(fields@)) == Some(p@),
        r is None ==> person_of_fields(pair_views(fields@)) is None,
{
    let name = last_value_of(fields, "name");
    let surname = last_value_of(fields, "surname");
    let gender = last_value_of(fields, "gender");
    let birth_date = last_value_of(fields, "birthDate");
    let birth_place = last_value_of(fields, "birthPlace");
    let job = last_value_of(fields, "job");
    match (name, surname, gender, birth_date, birth_place, job) {
        (Some(name), Some(surname), Some(gender), Some(birth_date), Some(birth_place), Some(job)) => {
            Some(Person { name, surname, gender, birth_date, birth_place, job })
        },
        _ => None,
    }
}

/// The `(header, value)` views of read rows.
pub open spec fn field_rows(v: Seq<Vec<(String, String)>>) -> Seq<Seq<(Seq<char>, Seq<char>)>> {
    v.map_values(|r: Vec<(String, String)>| pair_views(r@))
}

/// The people of rows that were read, in order; the first row that lacks a
/// field decides the error.
pub open spec fn people_of_field_rows(fs: Seq<Seq<(Seq<char>, Seq<char>)>>) -> Result<Seq<PersonView>, PeopleError>
    decreases fs.len(),
{
    if fs.len() == 0 {
        Ok(Seq::empty())
    } else {
        match people_of_field_rows(fs.drop_last()) {
            Err(e) => Err(e),
            Ok(ps) => match person_of_fields(fs.last()) {
                None => Err(PeopleError::InvalidRecord),
                Some(p) => Ok(ps.push(p)),
            },
        }
    }
}

/// The people of rows that were read up to a row that failed (`failed`):
/// a row lacking a field comes first, then the failed row.
pub open spec fn people_of_read(fs: Seq<Seq<(Seq<char>, Seq<char>)>>, failed: bool) -> Result<Seq<PersonView>, PeopleError> {
    match people_of_field_rows(fs) {
        Err(e) => Err(e),
        Ok(ps) => if failed {
            Err(PeopleError::Csv(CsvError::Record))
        } else {
            Ok(ps)
        },
    }
}

proof fn lemma_rows_agree(hs: Seq<Seq<char>>, rs: Seq<Option<Seq<Seq<char>>>>, fs: Seq<Seq<(Seq<char>, Seq<char>)>>, k: int)
    requires
        0 <= k <= rs.len(),
        fs.len() == k,
        forall|j: int| 0 <= j < k ==> rs[j] is Some,
        forall|j: int| 0 <= j < k ==> #[trigger] fs[j] == zip_fields(hs, rs[j]->0),
    ensures
        people_of_rows(hs, rs.take(k)) == people_of_field_rows(fs),
    decreases k,
{
    if k > 0 {
        assert(rs.take(k).drop_last() == rs.take(k - 1));
        assert(rs.take(k).last() == rs[k - 1]);
        assert(fs.last() == fs[k - 1]);
        lemma_rows_agree(hs, rs, fs.drop_last(), k - 1);
    } else {
        assert(rs.take(0).len() == 0);
    }
}

/// The people of the rows that were read from CSV text.
pub fn people_of_records(recs: &CsvRecords) -> (r: Result<Vec<Person>, PeopleError>)
    ensures
        r matches Ok(ps) ==> people_of_read(field_rows(recs.fields@), recs.failed) == Ok::<Seq<PersonView>, PeopleError>(person_views(ps@)),
        r matches Err(e) ==> people_of_read(field_rows(recs.fields@), recs.failed) == Err::<Seq<PersonView>, PeopleError>(e),
{
    let ghost fs = field_rows(recs.fields@);
    let mut people: Vec<Person> = Vec::new();
    let mut i: usize = 0;
    assert(person_views(people@) == Seq::<PersonView>::empty());
    assert(fs.take(0) == Seq::<Seq<(Seq<char>, Seq<char>)>>::empty());
    while i < recs.fields.len()
        invariant
            fs == field_rows(recs.fields@),
            fs.len() == recs.fields.len(),
            i <= recs.fields.len(),
            people@.len() == i,
            people_of_field_rows(fs.take(i as int)) == Ok::<Seq<PersonView>, PeopleError>(person_views(people@)),
        decreases recs.fields.len() - i,
    {
        let ghost before = person_views(people@);
        assert(fs.take(i + 1).drop_last() == fs.take(i as int));
        assert(fs.take(i + 1).last() == pair_views(recs.fields@[i as int]@));
        match person_from_fields(&recs.fields[i]) {
            Some(p) => {
                people.push(p);
                assert(person_views(people@) == before.push(people@[i as int]@));
            },
            None => {
                proof {
                    lemma_field_rows_prefix_err(fs, i + 1);
                }
                return Err(PeopleError::InvalidRecord);
            },
        }
        i = i + 1;
    }
    assert(fs.take(fs.len() as int) == fs);
    if recs.failed {
        return Err(PeopleError::Csv(CsvError::Record));
    }
    Ok(people)
}

proof fn lemma_field_rows_prefix_err(fs: Seq<Seq<(Seq<char>, Seq<char>)>>, j: int)
    requires
        0 <= j <= fs.len(),
        people_of_field_rows(fs.take(j)) is Err,
    ensures
        people_of_field_rows(fs) == people_of_field_rows(fs.take(j)),
    decreases fs.len(),
{
    if j == fs.len() {
        assert(fs.take(j) == fs);
    } else {
        assert(fs.drop_last().take(j) == fs.take(j));
        lemma_field_rows_prefix_err(fs.drop_last(), j);
    }
}

/// The people listed in CSV text with the columns `name`, `surname`,
/// `gender`, `birthDate`, `birthPlace` and `job`.
pub fn parse_people(csv_text: &str) -> (r: Result<Vec<Person>, PeopleError>)
    ensures
        r matches Ok(ps) ==> people_of_csv(csv_text@) == Ok::<Seq<PersonView>, PeopleError>(person_views(ps@)),
        r matches Err(e) ==> people_of_csv(csv_text@) == Err::<Seq<PersonView>, PeopleError>(e),
{
    let recs = match CsvService::read_records(csv_text) {
        Ok(recs) => recs,
        Err(e) => return Err(PeopleError::Csv(e)),
    };
    proof {
        let table = csv_read(csv_text@)->0;
        let hs = table.0;
        let rs = table.1;
        let k = first_failure(rs, 0);
        let fs = field_rows(recs.fields@);
        lemma_first_failure(rs, 0);
        assert forall|j: int| 0 <= j < k implies #[trigger] fs[j] == zip_fields(hs, rs[j]->0) by {
            assert(pair_views(recs.fields@[j]@) == zip_fields(hs, rs[j]->0));
        }
        lemma_rows_agree(hs, rs, fs, k);
        if k < rs.len() {
            assert(rs.take(k + 1).drop_last() == rs.take(k));
            assert(rs.take(k + 1).last() == rs[k]);
            if people_of_rows(hs, rs.take(k)) is Err {
                lemma_people_prefix_err(hs, rs, k);
            } else {
                lemma_people_prefix_err(hs, rs, k + 1);
            }
        } else {
            assert(rs.take(k) == rs);
        }
    }
    people_of_records(&recs)
}

proof fn lemma_first_failure(rs: Seq<Option<Seq<Seq<char>>>>, i: int)
    requires
        0 <= i <= rs.len(),
        forall|j: int| 0 <= j < i ==> rs[j] is Some,
    ensures
        i <= first_failure(rs, i) <= rs.len(),
        first_failure(rs, i) == first_failure(rs, 0),
        first_failure(rs, i) < rs.len() ==> rs[first_failure(rs, i)] is None,
        forall|j: int| 0 <= j < first_failure(rs, i) ==> rs[j] is Some,
    decreases rs.len() - i,
{
    if i > 0 {
        lemma_first_failure_shift(rs, 0, i);
    }
    if i < rs.len() && rs[i] is Some {
        lemma_first_failure(rs, i + 1);
    }
}

proof fn lemma_first_failure_shift(rs: Seq<Option<Seq<Seq<char>>>>, a: int, b: int)
    requires
        0 <= a <= b <= rs.len(),
        forall|j: int| a <= j < b ==> rs[j] is Some,
    ensures
        first_failure(rs, a) == first_failure(rs, b),
    decreases b - a,
{
    if a < b {
        lemma_first_failure_shift(rs, a + 1, b);
    }
}


/// A man born in Grudziądz whose age fits, with his birth year.
#[derive(Debug, Clone, PartialEq)]
pub struct Candidate {
    pub name: String,
    pub surname: String,
    pub gender: String,
    pub born: i32,
    pub city: String,
    pub job: String,
}

/// The text and birth year of a candidate.
pub struct CandidateView {
    pub name: Seq<char>,
    pub surname: Seq<char>,
    pub gender: Seq<char>,
    pub born: i32,
    pub city: Seq<char>,
    pub job: Seq<char>,
}

impl View for Candidate {
    type V = CandidateView;

    open spec fn view(&self) -> CandidateView {
        CandidateView {
            name: self.name@,
            surname: self.surname@,
            gender: self.gender@,
            born: self.born,
            city: self.city@,
            job: self.job@,
        }
    }
}

/// The views of a sequence of candidates.
pub open spec fn candidate_views(s: Seq<Candidate>) -> Seq<CandidateView> {
    s.map_values(|c: Candidate| c@)
}

/// The year in which the ages are counted.
pub const CURRENT_YEAR: i32 = 2026;

/// The birth year of a birth date such as `1987-08-07`: the number before
/// the first `-`.
pub open spec fn birth_year(birth_date: Seq<char>) -> Option<i32> {
    parse_i32(first_segment(birth_date, '-'))
}

/// The birth year of a birth date such as `1987-08-07`.
pub fn parse_birth_year(birth_date: &str) -> (r: Result<i32, PeopleError>)
    ensures
        birth_year(birth_date@) matches Some(y) ==> r == Ok::<i32, PeopleError>(y),
        birth_year(birth_date@) is None ==> r == Err::<i32, PeopleError>(PeopleError::InvalidBirthYear),
        r matches Ok(y) ==> y >= 0,
{
    let v = chars_of(birth_date);
    let seg = first_segment_chars(&v, '-');
    match parse_i32_chars(&seg) {
        Some(y) => Ok(y),
        None => Err(PeopleError::InvalidBirthYear),
    }
}

/// A man born in Grudziądz.
pub open spec fn is_local_man(p: PersonView) -> bool {
    p.gender == "M"@ && p.birth_place == "Grudziądz"@
}

/// Aged 20 to 40 in the current year.
pub open spec fn age_fits(born: i32) -> bool {
    20 <= CURRENT_YEAR - born <= 40
}

/// The candidate made of a person and the person's birth year.
pub open spec fn candidate_of(p: PersonView, born: i32) -> CandidateView {
    CandidateView {
        name: p.name,
        surname: p.surname,
        gender: p.gender,
        born: born,
        city: p.birth_place,
        job: p.job,
    }
}

/// The candidates among `ps`, in order: men born in Grudziądz aged 20 to
/// 40. The first such man whose birth date has no year decides the error.
pub open spec fn candidates_of(ps: Seq<PersonView>) -> Result<Seq<CandidateView>, PeopleError>
    decreases ps.len(),
{
    if ps.len() == 0 {
        Ok(Seq::empty())
    } else {
        match candidates_of(ps.drop_last()) {
            Err(e) => Err(e),
            Ok(cs) => {
                let p = ps.last();
                if !is_local_man(p) {
                    Ok(cs)
                } else {
                    match birth_year(p.birth_date) {
                        None => Err(PeopleError::InvalidBirthYear),
                        Some(y) => if age_fits(y) {
                            Ok(cs.push(candidate_of(p, y)))
                        } else {
                            Ok(cs)
                        },
                    }
                }
            },
        }
    }
}

proof fn lemma_candidates_prefix_err(ps: Seq<PersonView>, j: int)
    requires
        0 <= j <= ps.len(),
        candidates_of(ps.take(j)) is Err,
    ensures
        candidates_of(ps) == candidates_of(ps.take(j)),
    decreases ps.len(),
{
    if j == ps.len() {
        assert(ps.take(j) == ps);
    } else {
        assert(ps.drop_last().take(j) == ps.take(j));
        lemma_candidates_prefix_err(ps.drop_last(), j);
    }
}

/// The men born in Grudziądz aged 20 to 40, in the order of `people`.
pub fn filter_candidates(people: &[Person]) -> (r: Result<Vec<Candidate>, PeopleError>)
    ensures
        r matches Ok(cs) ==> candidates_of(person_views(people@)) == Ok::<Seq<CandidateView>, PeopleError>(candidate_views(cs@)),
        r matches Err(e) ==> candidates_of(person_views(people@)) == Err::<Seq<CandidateView>, PeopleError>(e),
{
    let ghost ps = person_views(people@);
    let male = String::from_str("M");
    let town = String::from_str("Grudziądz");
    let mut candidates: Vec<Candidate> = Vec::new();
    let mut i: usize = 0;
    assert(ps.take(0) == Seq::<PersonView>::empty());
    assert(candidate_views(candidates@) == Seq::<CandidateView>::empty());
    while i < people.len()
        invariant
            ps == person_views(people@),
            i <= people.len(),
            male@ == "M"@,
            town@ == "Grudziądz"@,
            candidates_of(ps.take(i as int)) == Ok::<Seq<CandidateView>, PeopleError>(candidate_views(candidates@)),
        decreases people.len() - i,
    {
        let person = &people[i];
        let ghost before = candidate_views(candidates@);
        assert(ps.take(i + 1).drop_last() == ps.take(i as int));
        assert(ps.take(i + 1).last() == person@);
        if person.gender == male && person.birth_place == town {
            let born = match parse_birth_year(person.birth_date.as_str()) {
                Ok(y) => y,
                Err(e) => {
                    proof {
                        lemma_candidates_prefix_err(ps, i + 1);
                    }
                    return Err(e);
                },
            };
            let age = CURRENT_YEAR - born;
            if 20 <= age && age <= 40 {
                candidates.push(Candidate {
                    name: person.name.clone(),
                    surname: person.surname.clone(),
                    gender: person.gender.clone(),
                    born,
                    city: person.birth_place.clone(),
                    job: person.job.clone(),
                });
                assert(candidate_views(candidates@) == before.push(candidate_of(person@, born)));
            }
        }
        i = i + 1;
    }
    assert(ps.take(people.len() as int) == ps);
    Ok(candidates)
}


/// A candidate with the tags of his job, as sent for verification.
#[derive(Debug, Clone, PartialEq)]
pub struct VerificationPerson {
    pub name: String,
    pub surname: String,
    pub gender: String,
    pub born: i32,
    pub city: String,
    pub tags: Vec<String>,
}

/// The text, birth year and tags of a tagged candidate.
pub struct VerificationPersonView {
    pub name: Seq<char>,
    pub surname: Seq<char>,
    pub gender: Seq<char>,
    pub born: i32,
    pub city: Seq<char>,
    pub tags: Seq<Seq<char>>,
}

impl View for VerificationPerson {
    type V = VerificationPersonView;

    open spec fn view(&self) -> VerificationPersonView {
        VerificationPersonView {
            name: self.name@,
            surname: self.surname@,
            gender: self.gender@,
            born: self.born,
            city: self.city@,
            tags: views(self.tags@),
        }
    }
}

/// The views of a sequence of tagged candidates.
pub open spec fn tagged_views(s: Seq<VerificationPerson>) -> Seq<VerificationPersonView> {
    s.map_values(|p: VerificationPerson| p@)
}

/// A copy of the strings of `v`.
pub fn copy_strings(v: &Vec<String>) -> (r: Vec<String>)
    ensures
        views(r@) == views(v@),
{
    let mut r: Vec<String> = Vec::new();
    let mut i: usize = 0;
    while i < v.len()
        invariant
            i <= v.len(),
            r@.len() == i,
            forall|k: int| 0 <= k < i ==> #[trigger] r@[k]@ == v@[k]@,
        decreases v.len() - i,
    {
        r.push(v[i].clone());
        i = i + 1;
    }
    assert(views(r@) == views(v@));
    r
}

impl VerificationPerson {
    /// A copy of this person.
    pub fn copy(&self) -> (r: VerificationPerson)
        ensures
            r@ == self@,
    {
        VerificationPerson {
            name: self.name.clone(),
            surname: self.surname.clone(),
            gender: self.gender.clone(),
            born: self.born,
            city: self.city.clone(),
            tags: copy_strings(&self.tags),
        }
    }
}

/// A tag that marks work with transport.
pub open spec fn is_transport_tag(t: Seq<char>) -> bool {
    t == "transport"@ || t == "praca z pojazdami"@
}

/// The person has a transport tag.
pub open spec fn works_in_transport(p: VerificationPersonView) -> bool {
    exists|i: int| 0 <= i < p.tags.len() && is_transport_tag(#[trigger] p.tags[i])
}

/// The people of `s` that work in transport, in order.
pub open spec fn transport_people(s: Seq<VerificationPersonView>) -> Seq<VerificationPersonView>
    decreases s.len(),
{
    if s.len() == 0 {
        Seq::empty()
    } else if works_in_transport(s.last()) {
        transport_people(s.drop_last()).push(s.last())
    } else {
        transport_people(s.drop_last())
    }
}

fn has_transport_tag(p: &VerificationPerson) -> (r: bool)
    ensures
        r == works_in_transport(p@),
{
    let transport = String::from_str("transport");
    let vehicles = String::from_str("praca z pojazdami");
    let mut i: usize = 0;
    while i < p.tags.len()
        invariant
            i <= p.tags.len(),
            transport@ == "transport"@,
            vehicles@ == "praca z pojazdami"@,
            forall|k: int| 0 <= k < i ==> !is_transport_tag(#[trigger] views(p.tags@)[k]),
        decreases p.tags.len() - i,
    {
        if p.tags[i] == transport || p.tags[i] == vehicles {
            assert(is_transport_tag(p@.tags[i as int]));
            return true;
        }
        i = i + 1;
    }
    false
}

/// The tagged candidates whose tags include `transport` or
/// `praca z pojazdami`, in order.
pub fn select_transport_people(tagged_candidates: &[VerificationPerson]) -> (r: Vec<VerificationPerson>)
    ensures
        tagged_views(r@) == transport_people(tagged_views(tagged_candidates@)),
{
    let ghost s = tagged_views(tagged_candidates@);
    let mut r: Vec<VerificationPerson> = Vec::new();
    let mut i: usize = 0;
    assert(s.take(0) == Seq::<VerificationPersonView>::empty());
    assert(tagged_views(r@) == Seq::<VerificationPersonView>::empty());
    while i < tagged_candidates.len()
        invariant
            s == tagged_views(tagged_candidates@),
            i <= tagged_candidates.len(),
            tagged_views(r@) == transport_people(s.take(i as int)),
        decreases tagged_candidates.len() - i,
    {
        let ghost before = tagged_views(r@);
        assert(s.take(i + 1).drop_last() == s.take(i as int));
        assert(s.take(i + 1).last() == tagged_candidates@[i as int]@);
        if has_transport_tag(&tagged_candidates[i]) {
            r.push(tagged_candidates[i].copy());
            assert(tagged_views(r@) == before.push(tagged_candidates@[i as int]@));
        }
        i = i + 1;
    }
    assert(s.take(tagged_candidates.len() as int) == s);
    r
}

/// The tags sorted and without repeats (collected through a `BTreeSet`).
pub fn normalize_tags(tags: Vec<String>) -> (r: Vec<String>)
    ensures
        views(r@) == sorted_unique(views(tags@)),
        strictly_sorted(views(r@)),
        views(r@).to_set() == views(tags@).to_set(),
{
    let ghost input = views(tags@);
    let mut unique: Vec<String> = Vec::new();
    let mut rest = tags;
    let mut i: usize = 0;
    assert(views(unique@).to_set() == input.take(0).to_set());
    while i < rest.len()
        invariant
            input == views(rest@),
            i <= rest.len(),
            strictly_sorted(views(unique@)),
            views(unique@).to_set() == input.take(i as int).to_set(),
        decreases rest.len() - i,
    {
        let t = rest[i].clone();
        insert_sorted(&mut unique, t);
        assert(input.take(i + 1) == input.take(i as int).push(input[i as int]));
        assert(input.take(i + 1).to_set() == input.take(i as int).to_set().insert(input[i as int])) by {
            input.take(i as int).lemma_push_to_set_commute(input[i as int]);
        }
        i = i + 1;
    }
    assert(input.take(rest.len() as int) == input);
    proof {
        lemma_sorted_unique_is(input, views(unique@));
    }
    unique
}

/// Normalizing tags twice gives what normalizing them once gives.
pub proof fn law_normalize_tags_idempotent(tags: Seq<Seq<char>>)
    ensures
        sorted_unique(sorted_unique(tags)) == sorted_unique(tags),
{
    lemma_sorted_enumeration_exists(tags);
    lemma_sorted_unique_is(sorted_unique(tags), sorted_unique(tags));
}


/// Every candidate is a man born in Grudziądz, aged 20 to 40.
pub proof fn law_candidates_fit(ps: Seq<PersonView>)
    ensures
        candidates_of(ps) matches Ok(cs) ==> forall|k: int| 0 <= k < cs.len() ==> {
            &&& (#[trigger] cs[k]).gender == "M"@
            &&& cs[k].city == "Grudziądz"@
            &&& age_fits(cs[k].born)
        },
    decreases ps.len(),
{
    if ps.len() > 0 {
        law_candidates_fit(ps.drop_last());
    }
}

/// Everyone selected works in transport, and everyone in transport is
/// selected.
pub proof fn law_transport_selection(s: Seq<VerificationPersonView>)
    ensures
        forall|k: int| 0 <= k < transport_people(s).len() ==> works_in_transport(#[trigger] transport_people(s)[k]),
        forall|k: int| 0 <= k < transport_people(s).len() ==> s.contains(#[trigger] transport_people(s)[k]),
        forall|k: int| 0 <= k < s.len() && works_in_transport(#[trigger] s[k]) ==> transport_people(s).contains(s[k]),
    decreases s.len(),
{
    if s.len() > 0 {
        let d = s.drop_last();
        law_transport_selection(d);
        let t = transport_people(s);
        let td = transport_people(d);
        assert forall|k: int| 0 <= k < t.len() implies s.contains(#[trigger] t[k]) by {
            if k < td.len() {
                assert(t[k] == td[k]);
                let j = choose|j: int| 0 <= j < d.len() && d[j] == td[k];
                assert(s[j] == d[j]);
            } else {
                assert(s[s.len() - 1] == t[k]);
            }
        }
        assert forall|k: int| 0 <= k < t.len() implies works_in_transport(#[trigger] t[k]) by {
            if k < td.len() {
                assert(t[k] == td[k]);
            }
        }
        assert forall|k: int| 0 <= k < s.len() && works_in_transport(#[trigger] s[k]) implies t.contains(s[k]) by {
            if k < s.len() - 1 {
                assert(d[k] == s[k]);
                let j = choose|j: int| 0 <= j < td.len() && td[j] == d[k];
                assert(t[j] == td[j]);
            } else {
                assert(t[t.len() - 1] == s[k]);
            }
        }
    }
}

/// Selecting transport workers twice selects the same people.
pub proof fn law_transport_selection_idempotent(s: Seq<VerificationPersonView>)
    ensures
        transport_people(transport_people(s)) == transport_people(s),
    decreases s.len(),
{
    if s.len() > 0 {
        let d = s.drop_last();
        law_transport_selection_idempotent(d);
        let td = transport_people(d);
        if works_in_transport(s.last()) {
            assert(td.push(s.last()).drop_last() == td);
        }
    }
}


/// A single person gives the candidate made of him when he is a man born
/// in Grudziądz whose birth year puts him between 20 and 40 in 2026; an
/// error when he is such a man with no readable year; nothing otherwise.
pub proof fn law_candidates_single(p: PersonView)
    ensures
        candidates_of(seq![p]) == (if !(p.gender == "M"@ && p.birth_place == "Grudziądz"@) {
            Ok(Seq::<CandidateView>::empty())
        } else {
            match birth_year(p.birth_date) {
                None => Err(PeopleError::InvalidBirthYear),
                Some(y) => if 20 <= CURRENT_YEAR - y <= 40 {
                    Ok(seq![CandidateView {
                        name: p.name,
                        surname: p.surname,
                        gender: p.gender,
                        born: y,
                        city: p.birth_place,
                        job: p.job,
                    }])
                } else {
                    Ok(Seq::<CandidateView>::empty())
                },
            }
        }),
{
    assert(seq![p].drop_last() == Seq::<PersonView>::empty());
    assert(seq![p].last() == p);
    assert(candidates_of(Seq::<PersonView>::empty()) == Ok::<Seq<CandidateView>, PeopleError>(Seq::empty()));
    match birth_year(p.birth_date) {
        Some(y) => {
            assert(Seq::<CandidateView>::empty().push(candidate_of(p, y)) == seq![candidate_of(p, y)]);
        },
        None => {},
    }
}

/// The candidates of two lists of people one after the other are the
/// candidates of the first followed by those of the second; the first
/// error, in order, wins. Every person is considered, wherever he stands.
pub proof fn law_candidates_concat(ps: Seq<PersonView>, qs: Seq<PersonView>)
    ensures
        candidates_of(ps + qs) == (match candidates_of(ps) {
            Err(e) => Err(e),
            Ok(a) => match candidates_of(qs) {
                Err(e) => Err(e),
                Ok(b) => Ok(a + b),
            },
        }),
    decreases qs.len(),
{
    if qs.len() == 0 {
        assert(ps + qs == ps);
        match candidates_of(ps) {
            Ok(a) => {
                assert(a + Seq::<CandidateView>::empty() == a);
            },
            Err(_) => {},
        }
    } else {
        law_candidates_concat(ps, qs.drop_last());
        assert((ps + qs).drop_last() == ps + qs.drop_last());
        assert((ps + qs).last() == qs.last());
        match candidates_of(ps) {
            Ok(a) => match candidates_of(qs.drop_last()) {
                Ok(b) => {
                    let p = qs.last();
                    match birth_year(p.birth_date) {
                        Some(y) => {
                            assert((a + b).push(candidate_of(p, y)) == a + b.push(candidate_of(p, y)));
                        },
                        None => {},
                    }
                },
                Err(_) => {},
            },
            Err(_) => {},
        }
    }
}


/// Selecting from two lists one after the other selects from the first,
/// then from the second: the selection keeps the order of the input and
/// looks at every person.
pub proof fn law_transport_concat(s: Seq<VerificationPersonView>, t: Seq<VerificationPersonView>)
    ensures
        transport_people(s + t) == transport_people(s) + transport_people(t),
    decreases t.len(),
{
    if t.len() == 0 {
        assert(s + t == s);
        assert(transport_people(s) + transport_people(t) == transport_people(s));
    } else {
        law_transport_concat(s, t.drop_last());
        assert((s + t).drop_last() == s + t.drop_last());
        assert((s + t).last() == t.last());
        if works_in_transport(t.last()) {
            assert((transport_people(s) + transport_people(t.drop_last())).push(t.last())
                == transport_people(s) + transport_people(t.drop_last()).push(t.last()));
        }
    }
}

/// A single person is selected exactly when one of his tags is
/// `transport` or `praca z pojazdami`.
pub proof fn law_transport_single(p: VerificationPersonView)
    ensures
        (exists|i: int| 0 <= i < p.tags.len() && (p.tags[i] == "transport"@ || p.tags[i] == "praca z pojazdami"@))
            ==> transport_people(seq![p]) == seq![p],
        !(exists|i: int| 0 <= i < p.tags.len() && (p.tags[i] == "transport"@ || p.tags[i] == "praca z pojazdami"@))
            ==> transport_people(seq![p]).len() == 0,
{
    assert(seq![p].drop_last() == Seq::<VerificationPersonView>::empty());
    assert(seq![p].last() == p);
    assert(Seq::<VerificationPersonView>::empty().push(p) == seq![p]);
    assert(transport_people(Seq::<VerificationPersonView>::empty()) == Seq::<VerificationPersonView>::empty());
    if works_in_transport(p) {
        let i = choose|i: int| 0 <= i < p.tags.len() && is_transport_tag(#[trigger] p.tags[i]);
        assert(0 <= i < p.tags.len() && (p.tags[i] == "transport"@ || p.tags[i] == "praca z pojazdami"@));
    } else {
        assert forall|i: int| 0 <= i < p.tags.len() implies !(p.tags[i] == "transport"@ || p.tags[i] == "praca z pojazdami"@) by {
            if p.tags[i] == "transport"@ || p.tags[i] == "praca z pojazdami"@ {
                assert(is_transport_tag(p.tags[i]));
            }
        }
    }
}

/// The people of two runs of rows, one after the other, are the people of
/// the first followed by those of the second; the first failing row, in
/// order, decides the error. No row is skipped.
pub proof fn law_people_concat(hs: Seq<Seq<char>>, rs: Seq<Option<Seq<Seq<char>>>>, ts: Seq<Option<Seq<Seq<char>>>>)
    ensures
        people_of_rows(hs, rs + ts) == (match people_of_rows(hs, rs) {
            Err(e) => Err(e),
            Ok(a) => match people_of_rows(hs, ts) {
                Err(e) => Err(e),
                Ok(b) => Ok(a + b),
            },
        }),
    decreases ts.len(),
{
    if ts.len() == 0 {
        assert(rs + ts == rs);
        match people_of_rows(hs, rs) {
            Ok(a) => {
                assert(a + Seq::<PersonView>::empty() == a);
            },
            Err(_) => {},
        }
    } else {
        law_people_concat(hs, rs, ts.drop_last());
        assert((rs + ts).drop_last() == rs + ts.drop_last());
        assert((rs + ts).last() == ts.last());
        match people_of_rows(hs, rs) {
            Ok(a) => match people_of_rows(hs, ts.drop_last()) {
                Ok(b) => match ts.last() {
                    Some(vs) => match person_of_fields(zip_fields(hs, vs)) {
                        Some(p) => {
                            assert((a + b).push(p) == a + b.push(p));
                        },
                        None => {},
                    },
                    None => {},
                },
                Err(_) => {},
            },
            Err(_) => {},
        }
    }
}

/// One row gives the person its fields describe, an invalid-record error
/// when a field is missing, or a CSV error when the row could not be read.
pub proof fn law_people_single(hs: Seq<Seq<char>>, r: Option<Seq<Seq<char>>>)
    ensures
        people_of_rows(hs, seq![r]) == (match r {
            None => Err(PeopleError::Csv(CsvError::Record)),
            Some(vs) => match person_of_fields(zip_fields(hs, vs)) {
                None => Err(PeopleError::InvalidRecord),
                Some(p) => Ok(seq![p]),
            },
        }),
{
    assert(seq![r].drop_last() == Seq::<Option<Seq<Seq<char>>>>::empty());
    assert(seq![r].last() == r);
    assert(people_of_rows(hs, Seq::<Option<Seq<Seq<char>>>>::empty()) == Ok::<Seq<PersonView>, PeopleError>(Seq::empty()));
    match r {
        Some(vs) => match person_of_fields(zip_fields(hs, vs)) {
            Some(p) => {
                assert(Seq::<PersonView>::empty().push(p) == seq![p]);
            },
            None => {},
        },
        None => {},
    }
}


/// The birth year of a date written `year-...`, or of a bare year, is
/// that year, for every year an `i32` holds.
pub proof fn law_birth_year(y: int, rest: Seq<char>)
    requires
        0 <= y <= i32::MAX,
    ensures
        birth_year(decimal(y as nat) + "-"@ + rest) == Some(y as i32),
        birth_year(decimal(y as nat)) == Some(y as i32),
{
    let d = decimal(y as nat);
    lemma_decimal_digits(y as nat);
    reveal_strlit("-");
    assert forall|i: int| 0 <= i < d.len() implies d[i] != '-' by {
        assert(is_digit(d[i]));
    }
    assert("-"@ == seq!['-']);
    law_first_segment_of(d, '-', rest);
    law_parse_i32_decimal(y);
    assert(signed_decimal(y) == d);
    law_first_segment_of(d, '-', Seq::<char>::empty());
    crate::docs_crawler::law_first_segment(d, '-');
    let f = first_segment(d, '-');
    if f.len() < d.len() {
        assert(d[f.len() as int] == '-');
    }
    assert(d.take(d.len() as int) == d);
}

} // verus!
