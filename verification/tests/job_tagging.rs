use exercises::job_tagging::{
    describe_job, job_groups, legacy_cache, ordered_entries, pending_descriptions, record_job_tags, tag_candidates,
    tagging_payload, tagging_records, tagging_schema_value, tagging_user_prompt, JobGroup, JobTagCache,
    TaggingRecord, TagsByIndex, AVAILABLE_TAGS, TAGGING_SYSTEM_PROMPT, TAG_DESCRIPTIONS,
};
use exercises::json::JsonValue;
use exercises::suspect_selection::{Candidate, VerificationPerson};

fn strings(v: &[&str]) -> Vec<String> {
    v.iter().map(|s| s.to_string()).collect()
}

fn candidate(name: &str, surname: &str, job: &str) -> Candidate {
    Candidate {
        name: name.to_string(),
        surname: surname.to_string(),
        gender: "M".to_string(),
        born: 1990,
        city: "Grudziądz".to_string(),
        job: job.to_string(),
    }
}

fn s(t: &str) -> JsonValue {
    JsonValue::Str(t.to_string())
}

fn obj(entries: Vec<(&str, JsonValue)>) -> JsonValue {
    JsonValue::Object(entries.into_iter().map(|(k, v)| (k.to_string(), v)).collect())
}

fn sample() -> Vec<Candidate> {
    vec![
        candidate("Jan", "Nowak", "kierowca"),
        candidate("Adam", "Kowalski", "lekarz"),
        candidate("Ewa", "Zięba", "kierowca"),
        candidate("Adam", "Kowalski", "lekarz"),
    ]
}

#[test]
fn describe_job_text() {
    assert_eq!(
        describe_job(&"kierowca".to_string(), &strings(&["Ewa Zięba", "Jan Nowak"])),
        "Opis stanowiska: kierowca\nPowiązane osoby: Ewa Zięba, Jan Nowak"
    );
    assert_eq!(describe_job(&"x".to_string(), &Vec::new()), "Opis stanowiska: x\nPowiązane osoby: ");
}

#[test]
fn job_groups_sorted_and_deduplicated() {
    let groups = job_groups(&sample());
    assert_eq!(
        groups,
        vec![
            JobGroup {
                job: "kierowca".to_string(),
                names: strings(&["Ewa Zięba", "Jan Nowak"]),
                description: "Opis stanowiska: kierowca\nPowiązane osoby: Ewa Zięba, Jan Nowak".to_string(),
            },
            JobGroup {
                job: "lekarz".to_string(),
                names: strings(&["Adam Kowalski"]),
                description: "Opis stanowiska: lekarz\nPowiązane osoby: Adam Kowalski".to_string(),
            },
        ]
    );
    assert!(job_groups(&[]).is_empty());
}

#[test]
fn cache_later_insert_wins() {
    let mut cache = JobTagCache::new();
    cache.insert("a".to_string(), strings(&["IT"]));
    cache.insert("b".to_string(), strings(&["transport"]));
    cache.insert("a".to_string(), strings(&["medycyna"]));
    assert_eq!(cache.get(&"a".to_string()), Some(&strings(&["medycyna"])));
    assert!(cache.contains_key(&"b".to_string()));
    assert!(!cache.contains_key(&"c".to_string()));
}

#[test]
fn pending_keeps_uncached_descriptions_in_order() {
    let groups = job_groups(&sample());
    let mut cache = JobTagCache::new();
    assert_eq!(pending_descriptions(&groups, &cache), vec![groups[0].description.clone(), groups[1].description.clone()]);
    cache.insert(groups[0].description.clone(), Vec::new());
    assert_eq!(pending_descriptions(&groups, &cache), vec![groups[1].description.clone()]);
}

#[test]
fn tags_by_index_normalizes_and_last_wins() {
    let tags = TagsByIndex::from_records(vec![
        TaggingRecord { index: 0, tags: strings(&["transport", "IT", "IT"]) },
        TaggingRecord { index: 1, tags: strings(&["edukacja"]) },
        TaggingRecord { index: 1, tags: strings(&["medycyna"]) },
    ]);
    assert_eq!(tags.tags_for(0), strings(&["IT", "transport"]));
    assert_eq!(tags.tags_for(1), strings(&["medycyna"]));
    assert_eq!(tags.tags_for(2), Vec::<String>::new());
}

#[test]
fn record_then_tag_every_candidate() {
    let candidates = sample();
    let groups = job_groups(&candidates);
    let mut cache = JobTagCache::new();
    let pending = pending_descriptions(&groups, &cache);
    let tags = TagsByIndex::from_records(vec![TaggingRecord { index: 0, tags: strings(&["transport"]) }]);
    record_job_tags(&mut cache, &pending, &tags);
    assert_eq!(cache.get(&pending[0]), Some(&strings(&["transport"])));
    assert_eq!(cache.get(&pending[1]), Some(&Vec::new()));
    let tagged = tag_candidates(&candidates, &groups, &cache);
    assert_eq!(tagged.len(), 4);
    assert_eq!(
        tagged[0],
        VerificationPerson {
            name: "Jan".to_string(),
            surname: "Nowak".to_string(),
            gender: "M".to_string(),
            born: 1990,
            city: "Grudziądz".to_string(),
            tags: strings(&["transport"]),
        }
    );
    assert_eq!(tagged[1].tags, Vec::<String>::new());
    assert_eq!(tagged[2].tags, strings(&["transport"]));
}

#[test]
fn ordered_entries_sorted_normalized() {
    let mut cache = JobTagCache::new();
    cache.insert("b".to_string(), strings(&["z", "a", "z"]));
    cache.insert("a".to_string(), strings(&["x"]));
    cache.insert("b".to_string(), strings(&["y", "x"]));
    assert_eq!(
        ordered_entries(&cache),
        vec![("a".to_string(), strings(&["x"])), ("b".to_string(), strings(&["x", "y"]))]
    );
}

#[test]
fn legacy_cache_normalizes_tags() {
    let cache = legacy_cache(vec![("d".to_string(), strings(&["transport", "IT", "transport"]))]);
    assert_eq!(cache.get(&"d".to_string()), Some(&strings(&["IT", "transport"])));
}

#[test]
fn tagging_prompt_text() {
    let prompt = tagging_user_prompt(&strings(&["a", "b"]));
    assert_eq!(prompt, format!("Dostępne tagi i ich znaczenie:\n{TAG_DESCRIPTIONS}\n\nOpisy stanowisk do otagowania:\n0: a\n\n1: b"));
    assert!(TAG_DESCRIPTIONS.starts_with("- IT: prace związane z oprogramowaniem"));
    assert_eq!(TAG_DESCRIPTIONS.lines().count(), 7);
    let ten: Vec<String> = (0..11).map(|i| format!("d{i}")).collect();
    assert!(tagging_user_prompt(&ten).ends_with("\n\n10: d10"));
}

#[test]
fn tagging_payload_shape() {
    let payload = tagging_payload("gpt-5.4", &strings(&["a"]));
    let format = payload.get("text").unwrap().get("format").unwrap();
    assert_eq!(format.get("name"), Some(&s("job_tagging")));
    assert_eq!(format.get("schema"), Some(&tagging_schema_value()));
    let system = payload.get("input").unwrap().item(0).unwrap().get("content").unwrap().item(0).unwrap();
    assert_eq!(system.get("text"), Some(&s(TAGGING_SYSTEM_PROMPT)));
    let tags_enum = tagging_schema_value()
        .get("properties").unwrap().get("records").unwrap().get("items").unwrap()
        .get("properties").unwrap().get("tags").unwrap().get("items").unwrap().get("enum").unwrap()
        .as_array().unwrap().len();
    assert_eq!(tags_enum, AVAILABLE_TAGS.len());
}

#[test]
fn tagging_records_from_answer() {
    let answer = obj(vec![(
        "records",
        JsonValue::Array(vec![
            obj(vec![("index", JsonValue::Number("1".to_string())), ("tags", JsonValue::Array(vec![s("IT")])), ("extra", JsonValue::Null)]),
            obj(vec![("index", JsonValue::Number("0".to_string())), ("tags", JsonValue::Array(vec![]))]),
        ]),
    )]);
    assert_eq!(
        tagging_records(&answer),
        Some(vec![TaggingRecord { index: 1, tags: strings(&["IT"]) }, TaggingRecord { index: 0, tags: Vec::new() }])
    );
    let negative = obj(vec![("records", JsonValue::Array(vec![obj(vec![("index", JsonValue::Number("-1".to_string())), ("tags", JsonValue::Array(vec![]))])]))]);
    assert_eq!(tagging_records(&negative), None);
    let float = obj(vec![("records", JsonValue::Array(vec![obj(vec![("index", JsonValue::Number("1.0".to_string())), ("tags", JsonValue::Array(vec![]))])]))]);
    assert_eq!(tagging_records(&float), None);
    let bad_tag = obj(vec![("records", JsonValue::Array(vec![obj(vec![("index", JsonValue::Number("1".to_string())), ("tags", JsonValue::Array(vec![JsonValue::Null]))])]))]);
    assert_eq!(tagging_records(&bad_tag), None);
    assert_eq!(tagging_records(&obj(vec![])), None);
    assert_eq!(tagging_records(&obj(vec![("records", JsonValue::Array(vec![]))])), Some(Vec::new()));
}

#[test]
fn second_run_asks_nothing() {
    let candidates = sample();
    let groups = job_groups(&candidates);
    let mut cache = JobTagCache::new();
    cache.insert(groups[1].description.clone(), strings(&["medycyna"]));
    let pending = pending_descriptions(&groups, &cache);
    assert_eq!(pending, vec![groups[0].description.clone()]);
    record_job_tags(&mut cache, &pending, &TagsByIndex::from_records(Vec::new()));
    assert!(pending_descriptions(&groups, &cache).is_empty());
    assert_eq!(cache.get(&groups[1].description), Some(&strings(&["medycyna"])));
}

#[test]
fn tagging_records_array_forms() {
    let n = |t: &str| JsonValue::Number(t.to_string());
    let record = JsonValue::Array(vec![n("2"), JsonValue::Array(vec![s("transport")])]);
    let answer = JsonValue::Array(vec![JsonValue::Array(vec![record.deep_copy()])]);
    assert_eq!(tagging_records(&answer), Some(vec![TaggingRecord { index: 2, tags: strings(&["transport"]) }]));
    let mixed = obj(vec![("records", JsonValue::Array(vec![record.deep_copy(), obj(vec![("tags", JsonValue::Array(vec![])), ("index", n("0"))])]))]);
    assert_eq!(
        tagging_records(&mixed),
        Some(vec![TaggingRecord { index: 2, tags: strings(&["transport"]) }, TaggingRecord { index: 0, tags: Vec::new() }])
    );
    let too_long = JsonValue::Array(vec![n("2"), JsonValue::Array(vec![]), JsonValue::Null]);
    assert_eq!(tagging_records(&obj(vec![("records", JsonValue::Array(vec![too_long]))])), None);
    let swapped = JsonValue::Array(vec![JsonValue::Array(vec![]), n("2")]);
    assert_eq!(tagging_records(&obj(vec![("records", JsonValue::Array(vec![swapped]))])), None);
    assert_eq!(tagging_records(&JsonValue::Array(vec![])), None);
    assert_eq!(tagging_records(&JsonValue::Array(vec![JsonValue::Array(vec![]), JsonValue::Null])), None);
}

#[test]
fn saved_cache_reloads_in_any_order() {
    let mut cache = JobTagCache::new();
    cache.insert("b".to_string(), strings(&["z", "a", "z"]));
    cache.insert("a".to_string(), strings(&["x"]));
    let mut saved = ordered_entries(&cache);
    saved.reverse();
    let reloaded = JobTagCache { entries: saved };
    assert_eq!(reloaded.get(&"b".to_string()), Some(&strings(&["a", "z"])));
    assert_eq!(reloaded.get(&"a".to_string()), Some(&strings(&["x"])));
    assert!(!reloaded.contains_key(&"c".to_string()));
}
