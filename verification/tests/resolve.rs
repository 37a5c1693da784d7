use edgeproxy::config::resolve::{interpolate, interpolate_documents, resolve_placeholder, Env};

fn env(pairs: &[(&str, &str)]) -> Env {
    Env::new(
        pairs
            .iter()
            .map(|(k, v)| (k.to_string(), v.to_string()))
            .collect(),
    )
}

#[test]
fn substitutes_defined_var() {
    let mut errs = vec![];
    let out = interpolate(
        "listen: ${HOST}:8080",
        &env(&[("HOST", "1.2.3.4")]),
        "f",
        &mut errs,
    );
    assert_eq!(out, "listen: 1.2.3.4:8080");
    assert!(errs.is_empty());
}

#[test]
fn uses_default_when_unset() {
    let mut errs = vec![];
    let out = interpolate("${MISSING:-fallback}", &env(&[]), "f", &mut errs);
    assert_eq!(out, "fallback");
    assert!(errs.is_empty());
}

#[test]
fn dotenv_beats_process_env_via_map() {
    let mut errs = vec![];
    let out = interpolate("${K}", &env(&[("K", "from-dotenv")]), "f", &mut errs);
    assert_eq!(out, "from-dotenv");
}

#[test]
fn undefined_var_accumulates_error() {
    let mut errs = vec![];
    let out = interpolate("a ${NOPE} b ${ALSO_NOPE}", &env(&[]), "site.yml", &mut errs);
    assert_eq!(out, "a  b ");
    assert_eq!(errs.len(), 2);
    assert_eq!(errs[0].var, "NOPE");
    assert_eq!(errs[1].var, "ALSO_NOPE");
    assert_eq!(errs[0].file, "site.yml");
}

#[test]
fn required_var_message() {
    let mut errs = vec![];
    interpolate("${TOKEN:?set the token}", &env(&[]), "f", &mut errs);
    assert_eq!(errs.len(), 1);
    assert_eq!(errs[0].message, "set the token");
}

#[test]
fn double_dollar_escapes() {
    let mut errs = vec![];
    let out = interpolate("cost is $$5 not ${X:-0}", &env(&[]), "f", &mut errs);
    assert_eq!(out, "cost is $5 not 0");
}

#[test]
fn dotenv_wins_over_process_snapshot() {
    let e = Env::with_process_env(
        vec![("K".to_string(), "dotenv".to_string())],
        vec![
            ("K".to_string(), "process".to_string()),
            ("P".to_string(), "only-process".to_string()),
        ],
    );
    assert_eq!(e.get("K").as_deref(), Some("dotenv"));
    assert_eq!(e.get("P").as_deref(), Some("only-process"));
    assert_eq!(e.get("Q"), None);
}

#[test]
fn later_dotenv_entry_wins() {
    let e = env(&[("K", "first"), ("K", "second")]);
    assert_eq!(e.get("K").as_deref(), Some("second"));
}

#[test]
fn plain_text_is_unchanged() {
    let mut errs = vec![];
    let out = interpolate("no placeholders here: {} }", &env(&[]), "f", &mut errs);
    assert_eq!(out, "no placeholders here: {} }");
    assert!(errs.is_empty());
}

#[test]
fn default_used_when_set_but_empty() {
    let mut errs = vec![];
    let out = interpolate("${E:-dflt}", &env(&[("E", "")]), "f", &mut errs);
    assert_eq!(out, "dflt");
    assert!(errs.is_empty());
}

#[test]
fn plain_placeholder_keeps_empty_value() {
    let mut errs = vec![];
    let out = interpolate("[${E}]", &env(&[("E", "")]), "f", &mut errs);
    assert_eq!(out, "[]");
    assert!(errs.is_empty());
}

#[test]
fn required_var_blank_message_uses_stock_text() {
    let mut errs = vec![];
    let out = interpolate("x${TOKEN:?  }y", &env(&[]), "conf.yml", &mut errs);
    assert_eq!(out, "xy");
    assert_eq!(errs.len(), 1);
    assert_eq!(errs[0].var, "TOKEN");
    assert_eq!(errs[0].file, "conf.yml");
    assert_eq!(errs[0].message, "required variable is unset");
}

#[test]
fn required_var_present_is_used() {
    let mut errs = vec![];
    let out = interpolate("${TOKEN:?set it}", &env(&[("TOKEN", "abc")]), "f", &mut errs);
    assert_eq!(out, "abc");
    assert!(errs.is_empty());
}

#[test]
fn names_are_trimmed_defaults_are_not() {
    let mut errs = vec![];
    let out = interpolate("${ HOST :- x }", &env(&[]), "f", &mut errs);
    assert_eq!(out, " x ");
    let out = interpolate("${ HOST }", &env(&[("HOST", "h")]), "f", &mut errs);
    assert_eq!(out, "h");
    assert!(errs.is_empty());
}

#[test]
fn unterminated_placeholder_is_kept() {
    let mut errs = vec![];
    let out = interpolate("a ${OPEN and more", &env(&[]), "f", &mut errs);
    assert_eq!(out, "a ${OPEN and more");
    assert!(errs.is_empty());
}

#[test]
fn lone_dollar_is_literal() {
    let mut errs = vec![];
    let out = interpolate("price $5 and $", &env(&[]), "f", &mut errs);
    assert_eq!(out, "price $5 and $");
    assert!(errs.is_empty());
}

#[test]
fn default_form_checked_before_required_form() {
    let mut errs = vec![];
    let out = interpolate("${A:?m:-d}", &env(&[]), "f", &mut errs);
    assert_eq!(out, "d");
    assert!(errs.is_empty());
}

#[test]
fn resolve_placeholder_undefined() {
    let mut errs = vec![];
    let out = resolve_placeholder(" NAME ", &env(&[]), "f.yml", &mut errs);
    assert_eq!(out, "");
    assert_eq!(errs.len(), 1);
    assert_eq!(errs[0].var, "NAME");
    assert_eq!(errs[0].message, "undefined variable");
    assert_eq!(errs[0].file, "f.yml");
}

#[test]
fn unicode_text_passes_through() {
    let mut errs = vec![];
    let out = interpolate("héllo ${N:-wörld} ✓", &env(&[]), "f", &mut errs);
    assert_eq!(out, "héllo wörld ✓");
}

#[test]
fn documents_collect_errors_from_every_file() {
    let docs = vec![
        ("a.yml".to_string(), "x: ${NOPE_A}".to_string()),
        ("b.yml".to_string(), "y: ${OK}".to_string()),
        ("c.yml".to_string(), "z: ${NOPE_C:?needed}".to_string()),
    ];
    let errs = interpolate_documents(&docs, &env(&[("OK", "1")])).unwrap_err();
    assert_eq!(errs.len(), 2);
    assert_eq!(errs[0].file, "a.yml");
    assert_eq!(errs[0].var, "NOPE_A");
    assert_eq!(errs[1].file, "c.yml");
    assert_eq!(errs[1].message, "needed");
}

#[test]
fn documents_resolve_when_all_defined() {
    let docs = vec![
        ("a.yml".to_string(), "x: ${A}".to_string()),
        ("b.yml".to_string(), "y: $${B}".to_string()),
    ];
    let texts = interpolate_documents(&docs, &env(&[("A", "1")])).unwrap();
    assert_eq!(texts, vec!["x: 1".to_string(), "y: ${B}".to_string()]);
}

#[test]
fn errors_come_one_per_placeholder_in_text_order() {
    let mut errs = vec![];
    let out = interpolate("a ${B} c ${D:?need d} ${E:-e} $${F}", &env(&[]), "cfg.yaml", &mut errs);
    assert_eq!(out, "a  c  e ${F}");
    let vars: Vec<&str> = errs.iter().map(|e| e.var.as_str()).collect();
    assert_eq!(vars, vec!["B", "D"]);
    assert_eq!(errs[1].message, "need d");
    assert!(errs.iter().all(|e| e.file == "cfg.yaml"));
}
