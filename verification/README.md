# exercises

Solutions to the first week of the AI_devs course tasks, with their logic
verified by Verus.

- `src/` is the verified library. Each module states its behaviour over
  mathematical views (`Seq`, `Map`, `Set`, and `JsonTree` for JSON values)
  and proves it:
  - `text`: trimming, searching, ordering, joining and number parsing of
    character sequences;
  - `json`: the `JsonValue` model and its lookups;
  - `csv_service`, `suspect_selection`, `job_tagging`: reading people from
    CSV, choosing candidates, tagging their jobs through a cache, and
    selecting those who work in transport;
  - `findhim`: reading the location and access level replies;
  - `package_proxy`: the package assistant's conversation, tools and the
    reactor rule;
  - `docs_crawler`, `declaration`: crawling the documentation and filling
    in the transport declaration;
  - `railway`: retrying against a rate-limited verifier;
  - `openai_wrapper`, `llm_payload_service`, `aidevs_verification`: request
    bodies and reply handling for the model and the verification endpoint;
  - `launcher`: choosing the exercise from a command-line target.
- `app/` is the program around it: HTTP calls, files, the HTTP server,
  writing JSON out,
  `.env` loading, and the floating-point distance computations of the
  findhim task.
- `tests/` exercises the library on concrete values.

Calls into outside code that Verus cannot read (the `csv` reader, the
`serde_json` parser, `str::to_lowercase`, `String::push`) sit behind a few small trusted
functions whose contracts are documented where they are declared.
