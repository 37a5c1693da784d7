//! `${VAR}` interpolation over raw configuration text.
use crate::text::{
    chars_of, find_char, find_char_in, find_pair, find_pair_in, lemma_find_char, lemma_find_pair,
    slice_chars, string_from_chars, trim, trim_range,
};
use vstd::prelude::*;

verus! {

/// Variable source for interpolation: the `.env` entries, then the process
/// environment. `.env` values take precedence over the process environment.
pub struct Env {
    dotenv: Vec<(String, String)>,
    process: Vec<(String, String)>,
}

/// The model of an [`Env`]: both sources as key/value lists, in insertion order.
pub struct EnvModel {
    pub dotenv: Seq<(Seq<char>, Seq<char>)>,
    pub process: Seq<(Seq<char>, Seq<char>)>,
}

pub open spec fn pairs_view(v: Seq<(String, String)>) -> Seq<(Seq<char>, Seq<char>)> {
    v.map_values(|p: (String, String)| (p.0@, p.1@))
}

/// The value a list of `insert`s leaves under `key`: the last entry wins.
pub open spec fn lookup(pairs: Seq<(Seq<char>, Seq<char>)>, key: Seq<char>) -> Option<Seq<char>>
    decreases pairs.len(),
{
    if pairs.len() == 0 {
        None
    } else if pairs.last().0 == key {
        Some(pairs.last().1)
    } else {
        lookup(pairs.drop_last(), key)
    }
}

/// `.env` first, then the process environment.
pub open spec fn env_get(env: EnvModel, key: Seq<char>) -> Option<Seq<char>> {
    match lookup(env.dotenv, key) {
        Some(v) => Some(v),
        None => lookup(env.process, key),
    }
}

impl View for Env {
    type V = EnvModel;

    closed spec fn view(&self) -> EnvModel {
        EnvModel { dotenv: pairs_view(self.dotenv@), process: pairs_view(self.process@) }
    }
}

/// Last value stored under `key` in `pairs`.
fn lookup_in(pairs: &Vec<(String, String)>, key: &String) -> (r: Option<String>)
    ensures
        match r {
            Some(v) => lookup(pairs_view(pairs@), key@) == Some(v@),
            None => lookup(pairs_view(pairs@), key@) is None,
        },
{
    let mut i = pairs.len();
    proof {
        assert(pairs@.take(i as int) =~= pairs@);
    }
    while i > 0
        invariant
            i <= pairs.len(),
            lookup(pairs_view(pairs@), key@) == lookup(pairs_view(pairs@.take(i as int)), key@),
        decreases i,
    {
        proof {
            assert(pairs_view(pairs@.take(i as int)).drop_last() =~= pairs_view(
                pairs@.take(i as int - 1),
            ));
        }
        if pairs[i - 1].0 == *key {
            return Some(pairs[i - 1].1.clone());
        }
        i = i - 1;
    }
    None
}

impl Env {
    /// An environment made of `.env` entries alone (later entries win).
    pub fn new(dotenv: Vec<(String, String)>) -> (e: Self)
        ensures
            e@.dotenv == pairs_view(dotenv@),
            e@.process.len() == 0,
    {
        Env { dotenv, process: Vec::new() }
    }

    /// `.env` entries backed by a snapshot of the process environment.
    pub fn with_process_env(dotenv: Vec<(String, String)>, process: Vec<(String, String)>) -> (e:
        Self)
        ensures
            e@.dotenv == pairs_view(dotenv@),
            e@.process == pairs_view(process@),
    {
        Env { dotenv, process }
    }

    /// The value of `key`: from `.env` if it is there, else from the process
    /// environment.
    pub fn get(&self, key: &str) -> (r: Option<String>)
        ensures
            match r {
                Some(v) => env_get(self@, key@) == Some(v@),
                None => env_get(self@, key@) is None,
            },
    {
        let k = key.to_owned();
        match lookup_in(&self.dotenv, &k) {
            Some(v) => Some(v),
            None => lookup_in(&self.process, &k),
        }
    }
}

/// One unresolved `${...}` placeholder, surfaced when no value is available.
#[derive(Debug, Clone, PartialEq, Eq)]
pub struct InterpolationError {
    pub file: String,
    pub var: String,
    pub message: String,
}

/// The model of an [`InterpolationError`].
pub struct InterpErr {
    pub file: Seq<char>,
    pub var: Seq<char>,
    pub message: Seq<char>,
}

impl View for InterpolationError {
    type V = InterpErr;

    open spec fn view(&self) -> InterpErr {
        InterpErr { file: self.file@, var: self.var@, message: self.message@ }
    }
}

pub open spec fn errs_view(v: Seq<InterpolationError>) -> Seq<InterpErr> {
    v.map_values(|e: InterpolationError| e@)
}

/// What a placeholder body `inner` (the text between `${` and `}`) expands
/// to, and the errors it raises:
/// - `VAR:-default`: the value of `VAR` when set and non-empty, else `default`;
/// - `VAR:?message`: the value of `VAR` when set and non-empty, else an error
///   carrying `message` (or a stock message when it is blank);
/// - `VAR`: the value of `VAR` when set (even empty), else an error.
/// The variable name and the message are trimmed; the default is not.
pub open spec fn placeholder_value(inner: Seq<char>, env: EnvModel, file: Seq<char>) -> (
    Seq<char>,
    Seq<InterpErr>,
) {
    match find_pair(inner, ':', '-') {
        Some(idx) => {
            let name = trim(inner.take(idx as int));
            let default = inner.skip(idx as int + 2);
            match env_get(env, name) {
                Some(v) => if v.len() > 0 {
                    (v, seq![])
                } else {
                    (default, seq![])
                },
                None => (default, seq![]),
            }
        },
        None => match find_pair(inner, ':', '?') {
            Some(idx) => {
                let name = trim(inner.take(idx as int));
                let msg = trim(inner.skip(idx as int + 2));
                let message = if msg.len() == 0 {
                    "required variable is unset"@
                } else {
                    msg
                };
                let err = InterpErr { file, var: name, message };
                match env_get(env, name) {
                    Some(v) => if v.len() > 0 {
                        (v, seq![])
                    } else {
                        (seq![], seq![err])
                    },
                    None => (seq![], seq![err]),
                }
            },
            None => {
                let name = trim(inner);
                match env_get(env, name) {
                    Some(v) => (v, seq![]),
                    None => (
                        seq![],
                        seq![InterpErr { file, var: name, message: "undefined variable"@ }],
                    ),
                }
            },
        },
    }
}

/// The text that interpolation makes of `text`, and the errors it collects,
/// in order. `$$` is a literal `$`; `${...}` is a placeholder; an unterminated
/// `${` is kept as written; any other `$` is literal.
pub open spec fn interpolation(text: Seq<char>, env: EnvModel, file: Seq<char>) -> (
    Seq<char>,
    Seq<InterpErr>,
)
    decreases text.len(),
{
    if text.len() == 0 {
        (seq![], seq![])
    } else if text[0] != '$' {
        let rest = interpolation(text.drop_first(), env, file);
        (seq![text[0]] + rest.0, rest.1)
    } else if text.len() >= 2 && text[1] == '$' {
        let rest = interpolation(text.skip(2), env, file);
        (seq!['$'] + rest.0, rest.1)
    } else if text.len() >= 2 && text[1] == '{' {
        let body = text.skip(2);
        match find_char(body, '}') {
            Some(k) => {
                proof {
                    lemma_find_char(body, '}');
                }
                let value = placeholder_value(body.take(k as int), env, file);
                let rest = interpolation(body.skip(k as int + 1), env, file);
                (value.0 + rest.0, value.1 + rest.1)
            },
            None => (seq!['$', '{'] + body, seq![]),
        }
    } else {
        let rest = interpolation(text.drop_first(), env, file);
        (seq!['$'] + rest.0, rest.1)
    }
}

/// Expands one placeholder body (the text between `${` and `}`), appending
/// the errors it raises to `errors`.
pub fn resolve_placeholder(
    inner: &str,
    env: &Env,
    file: &str,
    errors: &mut Vec<InterpolationError>,
) -> (out: String)
    ensures
        out@ == placeholder_value(inner@, env@, file@).0,
        errs_view(final(errors)@) == errs_view(old(errors)@) + placeholder_value(
            inner@,
            env@,
            file@,
        ).1,
{
    let s = chars_of(inner);
    let n = s.len();
    proof {
        assert(s@.subrange(0, n as int) =~= s@);
        lemma_find_pair(s@, ':', '-');
        lemma_find_pair(s@, ':', '?');
    }
    let dash = find_pair_in(&s, 0, n, ':', '-');
    if dash < n {
        let (a, b) = trim_range(&s, 0, dash);
        let name = string_from_chars(&slice_chars(&s, a, b));
        let default = string_from_chars(&slice_chars(&s, dash + 2, n));
        proof {
            assert(s@.subrange(0, dash as int) =~= s@.take(dash as int));
            assert(s@.subrange(dash + 2, n as int) =~= s@.skip(dash + 2));
        }
        match env.get(name.as_str()) {
            Some(v) => {
                if !v.as_str().is_empty() {
                    proof {
                        assert(v@.len() > 0);
                    }
                    v
                } else {
                    proof {
                        assert(v@.len() == 0);
                    }
                    default
                }
            },
            None => default,
        }
    } else {
        let quest = find_pair_in(&s, 0, n, ':', '?');
        if quest < n {
            let (a, b) = trim_range(&s, 0, quest);
            let name = string_from_chars(&slice_chars(&s, a, b));
            let (c, d) = trim_range(&s, quest + 2, n);
            let msg = string_from_chars(&slice_chars(&s, c, d));
            proof {
                assert(s@.subrange(0, quest as int) =~= s@.take(quest as int));
                assert(s@.subrange(quest + 2, n as int) =~= s@.skip(quest + 2));
            }
            let found = env.get(name.as_str());
            let usable = match &found {
                Some(v) => !v.as_str().is_empty(),
                None => false,
            };
            proof {
                assert(usable == (found is Some && found->0@.len() > 0));
            }
            if usable {
                match found {
                    Some(v) => v,
                    None => String::new(),
                }
            } else {
                let message = if msg.as_str().is_empty() {
                    String::from_str("required variable is unset")
                } else {
                    msg
                };
                errors.push(InterpolationError { file: file.to_owned(), var: name, message });
                proof {
                    assert(errs_view(errors@) =~= errs_view(old(errors)@) + seq![
                        errors@.last()@,
                    ]);
                }
                String::new()
            }
        } else {
            let (a, b) = trim_range(&s, 0, n);
            let name = string_from_chars(&slice_chars(&s, a, b));
            match env.get(name.as_str()) {
                Some(v) => v,
                None => {
                    errors.push(
                        InterpolationError {
                            file: file.to_owned(),
                            var: name,
                            message: String::from_str("undefined variable"),
                        },
                    );
                    proof {
                        assert(errs_view(errors@) =~= errs_view(old(errors)@) + seq![
                            errors@.last()@,
                        ]);
                    }
                    String::new()
                },
            }
        }
    }
}

/// Substitutes `${VAR}`, `${VAR:-default}` and `${VAR:?message}` over raw
/// text; `$$` escapes a literal `$`. Errors (an undefined `${VAR}`, or a
/// triggered `${VAR:?message}`) are appended to `errors`, in order, rather
/// than failing fast.
pub fn interpolate(text: &str, env: &Env, file: &str, errors: &mut Vec<InterpolationError>) -> (out:
    String)
    ensures
        out@ == interpolation(text@, env@, file@).0,
        errs_view(final(errors)@) == errs_view(old(errors)@) + interpolation(text@, env@, file@).1,
{
    let t = chars_of(text);
    let n = t.len();
    let mut out: Vec<char> = Vec::new();
    let ghost found: Seq<InterpErr> = seq![];
    let mut i: usize = 0;
    proof {
        assert(t@.skip(0) =~= t@);
    }
    while i < n
        invariant
            i <= n,
            n == t.len(),
            t@ == text@,
            interpolation(text@, env@, file@).0 == out@ + interpolation(t@.skip(i as int), env@, file@).0,
            interpolation(text@, env@, file@).1 == found + interpolation(t@.skip(i as int), env@, file@).1,
            errs_view(errors@) == errs_view(old(errors)@) + found,
        decreases n - i,
    {
        let ghost rest = t@.skip(i as int);
        let c = t[i];
        if c != '$' {
            proof {
                assert(rest.drop_first() =~= t@.skip(i + 1));
                assert(out@.push(c) + interpolation(t@.skip(i + 1), env@, file@).0 =~= out@ + (seq![c] + interpolation(t@.skip(i + 1), env@, file@).0));
            }
            out.push(c);
            i = i + 1;
        } else if n - i > 1 && t[i + 1] == '$' {
            proof {
                assert(rest.skip(2) =~= t@.skip(i + 2));
                assert(out@.push('$') + interpolation(t@.skip(i + 2), env@, file@).0 =~= out@ + (seq!['$'] + interpolation(t@.skip(i + 2), env@, file@).0));
            }
            out.push('$');
            i = i + 2;
        } else if n - i > 1 && t[i + 1] == '{' {
            let j = find_char_in(&t, i + 2, n, '}');
            proof {
                assert(rest.skip(2) =~= t@.subrange(i + 2, n as int));
            }
            if j < n {
                let inner = string_from_chars(&slice_chars(&t, i + 2, j));
                let ghost before = errors@;
                let value = resolve_placeholder(&inner, env, file, errors);
                let mut vchars = chars_of(value.as_str());
                proof {
                    let body = rest.skip(2);
                    assert(body.take(j - i - 2) =~= t@.subrange(i + 2, j as int));
                    assert(body.skip(j - i - 2 + 1) =~= t@.skip(j + 1));
                    let pv = placeholder_value(inner@, env@, file@);
                    assert(out@ + vchars@ + interpolation(t@.skip(j + 1), env@, file@).0 =~= out@ + (pv.0 + interpolation(t@.skip(j + 1), env@, file@).0));
                    assert(found + pv.1 + interpolation(t@.skip(j + 1), env@, file@).1 =~= found + (pv.1 + interpolation(t@.skip(j + 1), env@, file@).1));
                    assert(errs_view(errors@) =~= errs_view(old(errors)@) + (found + pv.1));
                    found = found + pv.1;
                }
                out.append(&mut vchars);
                i = j + 1;
            } else {
                proof {
                    assert(out@.push('$').push('{') + t@.subrange(i + 2, n as int) =~= out@ + (seq!['$', '{'] + rest.skip(2)));
                    assert(t@.skip(n as int) =~= Seq::<char>::empty());
                }
                out.push('$');
                out.push('{');
                let mut tail = slice_chars(&t, i + 2, n);
                out.append(&mut tail);
                i = n;
            }
        } else {
            proof {
                assert(rest.drop_first() =~= t@.skip(i + 1));
                assert(out@.push('$') + interpolation(t@.skip(i + 1), env@, file@).0 =~= out@ + (seq!['$'] + interpolation(t@.skip(i + 1), env@, file@).0));
            }
            out.push('$');
            i = i + 1;
        }
    }
    proof {
        assert(t@.skip(n as int) =~= Seq::<char>::empty());
        assert(out@ + Seq::<char>::empty() =~= out@);
        assert(found + Seq::<InterpErr>::empty() =~= found);
    }
    string_from_chars(&out)
}

/// The errors interpolating the first `n` documents raises, in order.
/// Each document is a `(label, text)` pair; the label names the file.
pub open spec fn documents_errors(docs: Seq<(Seq<char>, Seq<char>)>, env: EnvModel, n: int) -> Seq<InterpErr>
    decreases n,
{
    if n <= 0 {
        seq![]
    } else {
        documents_errors(docs, env, n - 1) + interpolation(docs[n - 1].1, env, docs[n - 1].0).1
    }
}

pub open spec fn docs_view(docs: Seq<(String, String)>) -> Seq<(Seq<char>, Seq<char>)> {
    docs.map_values(|d: (String, String)| (d.0@, d.1@))
}

/// Interpolates every document (pass one of loading). Returns the resolved
/// texts, in order, when no placeholder failed; otherwise every error from
/// every document, in order.
pub fn interpolate_documents(docs: &Vec<(String, String)>, env: &Env) -> (r: Result<
    Vec<String>,
    Vec<InterpolationError>,
>)
    ensures
        match r {
            Ok(texts) => documents_errors(docs_view(docs@), env@, docs.len() as int).len() == 0
                && texts.len() == docs.len() && forall|i: int|
                0 <= i < docs.len() ==> (#[trigger] texts@[i])@ == interpolation(
                    docs@[i].1@,
                    env@,
                    docs@[i].0@,
                ).0,
            Err(errs) => documents_errors(docs_view(docs@), env@, docs.len() as int).len() > 0
                && errs_view(errs@) == documents_errors(docs_view(docs@), env@, docs.len() as int),
        },
{
    let mut errors: Vec<InterpolationError> = Vec::new();
    let mut texts: Vec<String> = Vec::new();
    let mut i: usize = 0;
    while i < docs.len()
        invariant
            i <= docs.len(),
            texts.len() == i,
            forall|k: int|
                0 <= k < i ==> (#[trigger] texts@[k])@ == interpolation(
                    docs@[k].1@,
                    env@,
                    docs@[k].0@,
                ).0,
            errs_view(errors@) == documents_errors(docs_view(docs@), env@, i as int),
        decreases docs.len() - i,
    {
        let text = interpolate(docs[i].1.as_str(), env, docs[i].0.as_str(), &mut errors);
        texts.push(text);
        proof {
            assert(docs_view(docs@)[i as int] == (docs@[i as int].0@, docs@[i as int].1@));
        }
        i = i + 1;
    }
    if errors.len() == 0 {
        Ok(texts)
    } else {
        Err(errors)
    }
}

/// Text without any `$` comes out of interpolation unchanged and raises no error.
pub proof fn lemma_plain_text_unchanged(text: Seq<char>, env: EnvModel, file: Seq<char>)
    requires
        forall|i: int| 0 <= i < text.len() ==> text[i] != '$',
    ensures
        interpolation(text, env, file) == (text, Seq::<InterpErr>::empty()),
    decreases text.len(),
{
    if text.len() > 0 {
        let t = text.drop_first();
        assert forall|i: int| 0 <= i < t.len() implies t[i] != '$' by {
            assert(t[i] == text[i + 1]);
        }
        lemma_plain_text_unchanged(t, env, file);
        assert(seq![text[0]] + t =~= text);
    }
}

/// `$$` stands for one literal `$`; the rest is interpolated as if alone.
pub proof fn lemma_double_dollar_escapes(rest: Seq<char>, env: EnvModel, file: Seq<char>)
    ensures
        interpolation(seq!['$', '$'] + rest, env, file) == (
            seq!['$'] + interpolation(rest, env, file).0,
            interpolation(rest, env, file).1,
        ),
{
    assert((seq!['$', '$'] + rest).skip(2) =~= rest);
}

/// `.env` wins: a key present in `.env` resolves to its `.env` value whatever
/// the process environment holds.
pub proof fn lemma_dotenv_beats_process_env(env: EnvModel, key: Seq<char>, v: Seq<char>)
    requires
        lookup(env.dotenv, key) == Some(v),
    ensures
        env_get(env, key) == Some(v),
{
}

/// `${VAR:-default}` never raises an error, and yields `default` exactly when
/// `VAR` is unset or empty.
pub proof fn lemma_default_form(name: Seq<char>, default: Seq<char>, env: EnvModel, file: Seq<char>)
    requires
        find_pair(name, ':', '-') is None,
    ensures
        ({
            let r = placeholder_value(name + seq![':', '-'] + default, env, file);
            &&& r.1.len() == 0
            &&& r.0 == match env_get(env, trim(name)) {
                Some(v) => if v.len() > 0 {
                    v
                } else {
                    default
                },
                None => default,
            }
        }),
{
    let inner = name + seq![':', '-'] + default;
    lemma_find_pair_concat(name, seq![':', '-'] + default, ':', '-');
    assert(name + (seq![':', '-'] + default) =~= inner);
    assert(find_pair(seq![':', '-'] + default, ':', '-') == Some(0nat));
    assert(inner.take(name.len() as int) =~= name);
    assert(inner.skip(name.len() as int + 2) =~= default);
}

/// A search that finds nothing in `a` continues into `b`.
pub proof fn lemma_find_pair_concat(a: Seq<char>, b: Seq<char>, x: char, y: char)
    requires
        find_pair(a, x, y) is None,
        b.len() > 0 ==> b[0] != y || a.len() == 0 || a.last() != x,
    ensures
        find_pair(a + b, x, y) == match find_pair(b, x, y) {
            Some(k) => Some(k + a.len()),
            None => None,
        },
    decreases a.len(),
{
    if a.len() > 0 {
        let t = a.drop_first();
        assert((a + b).drop_first() =~= t + b);
        if a.len() >= 2 {
            assert(find_pair(t, x, y) is None);
            lemma_find_pair_concat(t, b, x, y);
        } else {
            assert(t + b =~= b);
        }
    }
}

/// An undefined `${VAR}` (no `:-` / `:?` form) expands to nothing and raises
/// exactly one error naming the trimmed variable and the file.
pub proof fn lemma_undefined_variable_error(inner: Seq<char>, env: EnvModel, file: Seq<char>)
    requires
        find_pair(inner, ':', '-') is None,
        find_pair(inner, ':', '?') is None,
        env_get(env, trim(inner)) is None,
    ensures
        placeholder_value(inner, env, file) == (
            Seq::<char>::empty(),
            seq![InterpErr { file, var: trim(inner), message: "undefined variable"@ }],
        ),
{
}

/// The number of `${` openings in `t` (an upper bound on its placeholders).
pub open spec fn placeholder_openings(t: Seq<char>) -> nat
    decreases t.len(),
{
    if t.len() < 2 {
        0
    } else {
        (if t[0] == '$' && t[1] == '{' {
            1nat
        } else {
            0nat
        }) + placeholder_openings(t.drop_first())
    }
}

proof fn lemma_openings_of_suffix(t: Seq<char>, k: int)
    requires
        0 <= k <= t.len(),
    ensures
        placeholder_openings(t.skip(k)) <= placeholder_openings(t),
    decreases k,
{
    if k > 0 {
        lemma_openings_of_suffix(t, k - 1);
        let s = t.skip(k - 1);
        assert(s.drop_first() =~= t.skip(k));
        assert(placeholder_openings(s.drop_first()) <= placeholder_openings(s)) by {
            if s.len() < 2 {
                assert(s.drop_first().len() < 2);
            }
        }
    } else {
        assert(t.skip(0) =~= t);
    }
}

/// A placeholder body raises at most one error.
proof fn lemma_placeholder_at_most_one_error(inner: Seq<char>, env: EnvModel, file: Seq<char>)
    ensures
        placeholder_value(inner, env, file).1.len() <= 1,
{
}

/// Error-count law: interpolating `t` raises at most one error per `${`
/// placeholder in `t`.
pub proof fn lemma_at_most_one_error_per_placeholder(t: Seq<char>, env: EnvModel, file: Seq<char>)
    ensures
        interpolation(t, env, file).1.len() <= placeholder_openings(t),
    decreases t.len(),
{
    if t.len() == 0 {
    } else if t[0] != '$' {
        lemma_at_most_one_error_per_placeholder(t.drop_first(), env, file);
        lemma_openings_of_suffix(t, 1);
        assert(t.skip(1) =~= t.drop_first());
    } else if t.len() >= 2 && t[1] == '$' {
        lemma_at_most_one_error_per_placeholder(t.skip(2), env, file);
        lemma_openings_of_suffix(t, 2);
    } else if t.len() >= 2 && t[1] == '{' {
        let body = t.skip(2);
        lemma_find_char(body, '}');
        match find_char(body, '}') {
            Some(k) => {
                let after = body.skip(k as int + 1);
                assert(after =~= t.skip(k as int + 3));
                lemma_at_most_one_error_per_placeholder(after, env, file);
                lemma_openings_of_suffix(t.drop_first(), k as int + 2);
                assert(t.drop_first().skip(k as int + 2) =~= after);
                lemma_placeholder_at_most_one_error(body.take(k as int), env, file);
            },
            None => {},
        }
    } else {
        lemma_at_most_one_error_per_placeholder(t.drop_first(), env, file);
        lemma_openings_of_suffix(t, 1);
        assert(t.skip(1) =~= t.drop_first());
    }
}

/// Text-order law: in `pre ${inner} post`, where `pre` holds no `$` and
/// `inner` no `}`, the text is `pre` followed by what the placeholder
/// expands to and then by what `post` becomes, and the placeholder's error
/// (if any) comes before every error of `post`.
pub proof fn lemma_errors_in_text_order(
    pre: Seq<char>,
    inner: Seq<char>,
    post: Seq<char>,
    env: EnvModel,
    file: Seq<char>,
)
    requires
        forall|m: int| 0 <= m < pre.len() ==> pre[m] != '$',
        forall|m: int| 0 <= m < inner.len() ==> inner[m] != '}',
    ensures
        ({
            let t = pre + seq!['$', '{'] + inner + seq!['}'] + post;
            let pv = placeholder_value(inner, env, file);
            let rest = interpolation(post, env, file);
            interpolation(t, env, file) == (pre + pv.0 + rest.0, pv.1 + rest.1)
        }),
    decreases pre.len(),
{
    let t = pre + seq!['$', '{'] + inner + seq!['}'] + post;
    let pv = placeholder_value(inner, env, file);
    let rest = interpolation(post, env, file);
    if pre.len() == 0 {
        assert(pre + seq!['$', '{'] =~= seq!['$', '{']);
        let body = t.skip(2);
        assert(body =~= inner + seq!['}'] + post);
        lemma_find_char(body, '}');
        assert(body[inner.len() as int] == '}');
        match find_char(body, '}') {
            Some(k) => {
                if k < inner.len() {
                    assert(body[k as int] == inner[k as int]);
                }
                assert(k == inner.len());
            },
            None => {
                assert(false);
            },
        }
        assert(body.take(inner.len() as int) =~= inner);
        assert(body.skip(inner.len() as int + 1) =~= post);
        assert(pre + pv.0 + rest.0 =~= pv.0 + rest.0);
    } else {
        let p2 = pre.drop_first();
        lemma_errors_in_text_order(p2, inner, post, env, file);
        assert(t.drop_first() =~= p2 + seq!['$', '{'] + inner + seq!['}'] + post);
        assert(pre[0] != '$');
        assert(t[0] == pre[0]);
        assert(seq![pre[0]] + (p2 + pv.0 + rest.0) =~= pre + pv.0 + rest.0);
    }
}

/// Required-variable law: for `${NAME:?MSG}` (with no `:` in `NAME` and no
/// `:-` in `MSG`), the placeholder expands to the variable's value when it
/// is set and non-empty, with no error; when it is unset or set to the
/// empty string it expands to nothing and raises exactly one error, naming
/// the trimmed `NAME`, with the trimmed `MSG` as message (or `required
/// variable is unset` when `MSG` is blank).
pub proof fn lemma_required_variable(name: Seq<char>, msg: Seq<char>, env: EnvModel, file: Seq<char>)
    requires
        forall|m: int| 0 <= m < name.len() ==> name[m] != ':',
        find_pair(msg, ':', '-') is None,
    ensures
        ({
            let r = placeholder_value(name + seq![':', '?'] + msg, env, file);
            let var = trim(name);
            let message = if trim(msg).len() == 0 {
                "required variable is unset"@
            } else {
                trim(msg)
            };
            match env_get(env, var) {
                Some(v) => if v.len() > 0 {
                    r == (v, Seq::<InterpErr>::empty())
                } else {
                    r == (Seq::<char>::empty(), seq![InterpErr { file, var, message }])
                },
                None => r == (Seq::<char>::empty(), seq![InterpErr { file, var, message }]),
            }
        }),
{
    let tail = seq![':', '?'] + msg;
    let inner = name + tail;
    assert(name + seq![':', '?'] + msg =~= inner);
    lemma_no_colon_no_pair(name, '-');
    lemma_no_colon_no_pair(name, '?');
    // `:-` is found neither in `name`, nor across `:?`, nor in `msg`
    assert(find_pair(seq![':', '?'], ':', '-') is None) by {
        assert(seq![':', '?'].drop_first() =~= seq!['?']);
        assert(find_pair(seq!['?'], ':', '-') is None);
        assert(seq![':', '?'][1] == '?');
    }
    lemma_find_pair_concat(seq![':', '?'], msg, ':', '-');
    assert(seq![':', '?'] + msg =~= tail);
    assert(find_pair(tail, ':', '-') is None);
    lemma_find_pair_concat(name, tail, ':', '-');
    assert(find_pair(inner, ':', '-') is None);
    // `:?` is found right after `name`
    assert(find_pair(tail, ':', '?') == Some(0nat));
    lemma_find_pair_concat(name, tail, ':', '?');
    assert(find_pair(inner, ':', '?') == Some(name.len()));
    assert(inner.take(name.len() as int) =~= name);
    assert(inner.skip(name.len() as int + 2) =~= msg);
}

/// A text with no `:` holds no `:x` pair.
proof fn lemma_no_colon_no_pair(s: Seq<char>, y: char)
    requires
        forall|m: int| 0 <= m < s.len() ==> s[m] != ':',
    ensures
        find_pair(s, ':', y) is None,
    decreases s.len(),
{
    if s.len() >= 2 {
        lemma_no_colon_no_pair(s.drop_first(), y);
    }
}

/// Required-variable law in running text: in `pre ${NAME:?MSG} post`, a
/// variable that is unset or empty leaves `pre` followed by what `post`
/// becomes, and raises one error (naming the trimmed `NAME`) ahead of the
/// errors of `post`.
pub proof fn lemma_required_variable_in_text(
    pre: Seq<char>,
    name: Seq<char>,
    msg: Seq<char>,
    post: Seq<char>,
    env: EnvModel,
    file: Seq<char>,
)
    requires
        forall|m: int| 0 <= m < pre.len() ==> pre[m] != '$',
        forall|m: int| 0 <= m < name.len() ==> name[m] != ':' && name[m] != '}',
        forall|m: int| 0 <= m < msg.len() ==> msg[m] != '}',
        find_pair(msg, ':', '-') is None,
        match env_get(env, trim(name)) {
            Some(v) => v.len() == 0,
            None => true,
        },
    ensures
        ({
            let t = pre + seq!['$', '{'] + name + seq![':', '?'] + msg + seq!['}'] + post;
            let message = if trim(msg).len() == 0 {
                "required variable is unset"@
            } else {
                trim(msg)
            };
            let rest = interpolation(post, env, file);
            &&& interpolation(t, env, file).0 == pre + rest.0
            &&& interpolation(t, env, file).1 == seq![InterpErr { file, var: trim(name), message }] + rest.1
        }),
{
    let inner = name + seq![':', '?'] + msg;
    lemma_required_variable(name, msg, env, file);
    assert forall|m: int| 0 <= m < inner.len() implies inner[m] != '}' by {
        if m < name.len() {
            assert(inner[m] == name[m]);
        } else if m >= name.len() + 2 {
            assert(inner[m] == msg[m - name.len() - 2]);
        }
    }
    lemma_errors_in_text_order(pre, inner, post, env, file);
    let t = pre + seq!['$', '{'] + name + seq![':', '?'] + msg + seq!['}'] + post;
    assert(t =~= pre + seq!['$', '{'] + inner + seq!['}'] + post);
    assert(pre + Seq::<char>::empty() + interpolation(post, env, file).0 =~= pre + interpolation(post, env, file).0);
}

/// Plain-variable law: `${NAME}` (no `:` in `NAME`) expands to the
/// variable's value whenever it is set, even to the empty string, with no
/// error; when it is unset it expands to nothing and raises one error
/// naming the trimmed `NAME` with the message `undefined variable`.
pub proof fn lemma_plain_variable(name: Seq<char>, env: EnvModel, file: Seq<char>)
    requires
        forall|m: int| 0 <= m < name.len() ==> name[m] != ':',
    ensures
        match env_get(env, trim(name)) {
            Some(v) => placeholder_value(name, env, file) == (v, Seq::<InterpErr>::empty()),
            None => placeholder_value(name, env, file) == (
                Seq::<char>::empty(),
                seq![InterpErr { file, var: trim(name), message: "undefined variable"@ }],
            ),
        },
{
    lemma_no_colon_no_pair(name, '-');
    lemma_no_colon_no_pair(name, '?');
}

} // verus!
