use exercises::csv_service::{CsvError, CsvService};
use exercises::suspect_selection::{
    filter_candidates, normalize_tags, parse_birth_year, parse_people, select_transport_people,
    Candidate, PeopleError, Person, VerificationPerson,
};
use std::collections::BTreeSet;

const HEADER: &str = "name,surname,gender,birthDate,birthPlace,job\n";

fn person(name: &str, gender: &str, birth_date: &str, place: &str, job: &str) -> Person {
    Person {
        name: name.to_string(),
        surname: format!("{name}ski"),
        gender: gender.to_string(),
        birth_date: birth_date.to_string(),
        birth_place: place.to_string(),
        job: job.to_string(),
    }
}

fn tagged(name: &str, tags: &[&str]) -> VerificationPerson {
    VerificationPerson {
        name: name.to_string(),
        surname: "Nowak".to_string(),
        gender: "M".to_string(),
        born: 1990,
        city: "Grudziądz".to_string(),
        tags: tags.iter().map(|t| t.to_string()).collect(),
    }
}

#[test]
fn parse_people_reads_rows() {
    let text = format!("{HEADER}Jan,Kowalski,M,1990-05-01,Grudziądz,kierowca\nAnna,Nowak,F,1985-01-02,Toruń,lekarz\n");
    let people = parse_people(&text).unwrap();
    assert_eq!(people.len(), 2);
    assert_eq!(people[0], Person {
        name: "Jan".to_string(),
        surname: "Kowalski".to_string(),
        gender: "M".to_string(),
        birth_date: "1990-05-01".to_string(),
        birth_place: "Grudziądz".to_string(),
        job: "kierowca".to_string(),
    });
    assert_eq!(people[1].birth_place, "Toruń");
}

#[test]
fn parse_people_ignores_extra_columns_and_takes_last_duplicate() {
    let text = "name,surname,gender,birthDate,birthPlace,job,job,extra\nJan,Kowalski,M,1990,Grudziądz,first,second,x\n";
    let people = parse_people(text).unwrap();
    assert_eq!(people[0].job, "second");
}

#[test]
fn parse_people_quoted_fields() {
    let text = format!("{HEADER}\"Jan\",\"Kowal, ski\",M,1990,Grudziądz,\"opis \"\"pracy\"\"\"\n");
    let people = parse_people(&text).unwrap();
    assert_eq!(people[0].surname, "Kowal, ski");
    assert_eq!(people[0].job, "opis \"pracy\"");
}

#[test]
fn parse_people_missing_field_is_invalid() {
    let text = format!("{HEADER}Jan,Kowalski,M,1990\n");
    assert_eq!(parse_people(&text), Err(PeopleError::InvalidRecord));
    assert_eq!(PeopleError::InvalidRecord.message(), "Invalid CSV record");
}

#[test]
fn parse_people_empty_text_has_no_people() {
    assert_eq!(parse_people("").unwrap().len(), 0);
    assert_eq!(parse_people(HEADER).unwrap().len(), 0);
}

#[test]
fn read_records_pairs_headers_with_values() {
    let recs = CsvService::read_records("a,b\n1,2\n3\n").unwrap();
    assert!(!recs.failed);
    assert_eq!(recs.fields.len(), 2);
    assert_eq!(recs.fields[0], vec![("a".to_string(), "1".to_string()), ("b".to_string(), "2".to_string())]);
    assert_eq!(recs.fields[1], vec![("a".to_string(), "3".to_string())]);
}

#[test]
fn csv_error_messages() {
    assert_eq!(PeopleError::Csv(CsvError::Headers).message(), "Failed to read CSV headers");
    assert_eq!(PeopleError::Csv(CsvError::Record).message(), "Failed to parse CSV record");
}

#[test]
fn parse_birth_year_cases() {
    assert_eq!(parse_birth_year("1987-08-07"), Ok(1987));
    assert_eq!(parse_birth_year("1987"), Ok(1987));
    assert_eq!(parse_birth_year("+1990-01-01"), Ok(1990));
    assert_eq!(parse_birth_year("0042-01-01"), Ok(42));
    assert_eq!(parse_birth_year("-1990-01-01"), Err(PeopleError::InvalidBirthYear));
    assert_eq!(parse_birth_year("abc"), Err(PeopleError::InvalidBirthYear));
    assert_eq!(parse_birth_year(""), Err(PeopleError::InvalidBirthYear));
    assert_eq!(parse_birth_year(" 1990"), Err(PeopleError::InvalidBirthYear));
    assert_eq!(parse_birth_year("2147483647"), Ok(2147483647));
    assert_eq!(parse_birth_year("2147483648"), Err(PeopleError::InvalidBirthYear));
    assert_eq!(PeopleError::InvalidBirthYear.message(), "Invalid birth year");
}

#[test]
fn filter_candidates_keeps_local_men_aged_20_to_40() {
    let people = vec![
        person("A", "M", "1986-01-01", "Grudziądz", "j1"),
        person("B", "M", "2006-12-31", "Grudziądz", "j2"),
        person("C", "M", "1985-01-01", "Grudziądz", "j3"),
        person("D", "M", "2007-01-01", "Grudziądz", "j4"),
        person("E", "F", "1990-01-01", "Grudziądz", "j5"),
        person("F", "M", "1990-01-01", "Toruń", "j6"),
        person("G", "M", "bad", "Toruń", "j7"),
    ];
    let candidates = filter_candidates(&people).unwrap();
    assert_eq!(candidates, vec![
        Candidate {
            name: "A".to_string(),
            surname: "Aski".to_string(),
            gender: "M".to_string(),
            born: 1986,
            city: "Grudziądz".to_string(),
            job: "j1".to_string(),
        },
        Candidate {
            name: "B".to_string(),
            surname: "Bski".to_string(),
            gender: "M".to_string(),
            born: 2006,
            city: "Grudziądz".to_string(),
            job: "j2".to_string(),
        },
    ]);
}

#[test]
fn filter_candidates_fails_on_bad_year_of_local_man() {
    let people = vec![person("A", "M", "1990-01-01", "Grudziądz", "j"), person("B", "M", "x-01-01", "Grudziądz", "j")];
    assert_eq!(filter_candidates(&people), Err(PeopleError::InvalidBirthYear));
}

#[test]
fn law_candidates_fit_on_values() {
    let people = vec![
        person("A", "M", "1995", "Grudziądz", "j"),
        person("B", "M", "1950", "Grudziądz", "j"),
        person("C", "K", "1995", "Grudziądz", "j"),
    ];
    for c in filter_candidates(&people).unwrap() {
        assert_eq!(c.gender, "M");
        assert_eq!(c.city, "Grudziądz");
        assert!((20..=40).contains(&(2026 - c.born)));
    }
}

#[test]
fn select_transport_people_keeps_transport_tags() {
    let people = vec![
        tagged("A", &["IT"]),
        tagged("B", &["transport"]),
        tagged("C", &["praca z pojazdami", "IT"]),
        tagged("D", &[]),
        tagged("E", &["Transport"]),
    ];
    let chosen = select_transport_people(&people);
    let names: Vec<&str> = chosen.iter().map(|p| p.name.as_str()).collect();
    assert_eq!(names, vec!["B", "C"]);
    assert_eq!(chosen[1], people[2]);
}

#[test]
fn law_transport_selection_idempotent_on_values() {
    let people = vec![tagged("A", &["transport"]), tagged("B", &["IT"])];
    let once = select_transport_people(&people);
    let twice = select_transport_people(&once);
    assert_eq!(once, twice);
}

#[test]
fn normalize_tags_sorts_and_dedups_like_btreeset() {
    let tags: Vec<String> = ["transport", "IT", "praca z pojazdami", "IT", "praca z ludźmi", "Ą", "a", "edukacja"]
        .iter()
        .map(|t| t.to_string())
        .collect();
    let expected: Vec<String> = tags.iter().cloned().collect::<BTreeSet<_>>().into_iter().collect();
    assert_eq!(normalize_tags(tags), expected);
}

#[test]
fn law_normalize_tags_idempotent_on_values() {
    let tags: Vec<String> = ["b", "a", "b", "ż", "z"].iter().map(|t| t.to_string()).collect();
    let once = normalize_tags(tags);
    assert_eq!(normalize_tags(once.clone()), once);
    assert_eq!(normalize_tags(Vec::new()), Vec::<String>::new());
}
