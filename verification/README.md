# notion-backup

Backs up an accessible Notion workspace to a git repository.

1. **Dump:** the raw JSON returned by the API is written to `<BACKUP_DIR>/json/`, one directory
   `<id>-<slug>` per page and database. When a previous tree exists, pages whose `last_edited_time`
   did not change keep their stored blocks.
2. **Render (optional):** the JSON tree is mirrored into Markdown pages, with YAML front matter and
   relative links, and a CSV index per database, under `<BACKUP_DIR>/markdown/`.
3. **Commit (and push):** whatever changed is committed, and pushed to `GIT_REMOTE` where that is set.

`src/` is a verified library: executable Rust whose behaviour is stated in contracts and proved with
Verus. It takes and gives plain values, and touches neither network nor disk. `app/` is the program
around it. `tests/` runs the library on concrete values.

What is not proved stands in a few items marked `external_body` or `assume_specification`, each with
a comment on what it claims: the text forms of `serde_json`, two substitutions by `regex`, and two
functions of `std`.
