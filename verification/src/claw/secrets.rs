//! The secrets file: lines that set environment variables which are not set yet.

use vstd::prelude::*;

use crate::environ::{env_value, env_var, Environ};
use crate::text::chars::{
    is_space, lemma_trim_ends, lemma_trim_fixed, owned, trim, trim_str,
};
use crate::text::lines::{lines, lines_of};
use crate::text::pairs::text_pairs;
use crate::text::search::{
    ends, ends_with, find_char_in, is_char, lemma_find_where, lemma_prefix, lemma_split_once,
    split_once, split_once_at, starts, starts_with, strip, strip_prefix,
};

verus! {

/// What a line of the secrets file asks for: nothing, that a variable be set, or something that
/// an environment cannot hold.
#[derive(Debug)]
pub enum SecretLine {
    Skip,
    Assign(String, String),
    Refused,
}

/// What a line of the secrets file asks for.
pub enum SecretView {
    Skip,
    Assign(Seq<char>, Seq<char>),
    Refused,
}

impl View for SecretLine {
    type V = SecretView;

    open spec fn view(&self) -> SecretView {
        match self {
            SecretLine::Skip => SecretView::Skip,
            SecretLine::Assign(k, v) => SecretView::Assign(k@, v@),
            SecretLine::Refused => SecretView::Refused,
        }
    }
}

/// Whether `v` starts and ends with the quote `q`.
pub open spec fn in_quotes(v: Seq<char>, q: char) -> bool {
    v.len() > 0 && v[0] == q && v.last() == q
}

/// Whether `v` is in quotes.
pub open spec fn is_quoted(v: Seq<char>) -> bool {
    in_quotes(v, '\'') || in_quotes(v, '"')
}

/// Whether `v` refers to another variable: `${NAME}`.
pub open spec fn is_reference(v: Seq<char>) -> bool {
    starts_with(v, "${"@) && ends_with(v, "}"@)
}

/// A variable that is to be set; an environment holds no empty name and no zero character.
pub open spec fn set_or_refuse(k: Seq<char>, v: Seq<char>) -> SecretView {
    if k.len() == 0 || k.contains('\0') || v.contains('\0') {
        SecretView::Refused
    } else {
        SecretView::Assign(k, v)
    }
}

/// A variable and its value, without quotes and with a reference followed.
pub open spec fn assignment(
    k: Seq<char>,
    v: Seq<char>,
    env: Map<Seq<char>, Seq<char>>,
) -> SecretView {
    if is_quoted(v) && v.len() < 2 {
        SecretView::Refused
    } else {
        let w = if is_quoted(v) {
            v.subrange(1, v.len() - 1)
        } else {
            v
        };
        if is_reference(w) {
            match env_value(env, w.subrange(2, w.len() - 1)) {
                Some(x) => set_or_refuse(k, x),
                None => SecretView::Skip,
            }
        } else {
            set_or_refuse(k, w)
        }
    }
}

/// What a line of the secrets file asks for.
pub open spec fn secret(line: Seq<char>, env: Map<Seq<char>, Seq<char>>) -> SecretView {
    let l = trim(line);
    if l.len() == 0 || l[0] == '#' {
        SecretView::Skip
    } else {
        let body = match strip_prefix(l, "export "@) {
            Some(b) => b,
            None => l,
        };
        match split_once(body, '=') {
            None => SecretView::Skip,
            Some((k, v)) => if env.contains_key(trim(k)) {
                SecretView::Skip
            } else {
                assignment(trim(k), trim(v), env)
            },
        }
    }
}

/// Whether a text holds the character `c`.
fn holds_char(s: &str, c: char) -> (r: bool)
    ensures
        r == s@.contains(c),
{
    proof {
        lemma_find_where(s@, is_char(c));
    }
    match find_char_in(s, c) {
        Some(k) => {
            assert(s@[k as int] == c);
            true
        },
        None => {
            assert forall|j: int| 0 <= j < s@.len() implies s@[j] != c by {
                assert(!is_char(c)(s@[j]));
            }
            false
        },
    }
}

fn make_set(k: &str, v: &str) -> (r: SecretLine)
    ensures
        r@ == set_or_refuse(k@, v@),
{
    if k.unicode_len() == 0 || holds_char(k, '\0') || holds_char(v, '\0') {
        SecretLine::Refused
    } else {
        SecretLine::Assign(owned(k), owned(v))
    }
}

/// What a line of the secrets file asks for.
pub fn read_secret(line: &str, env: &Environ) -> (r: SecretLine)
    ensures
        r@ == secret(line@, env@),
{
    let l: &str = trim_str(line);
    if l.unicode_len() == 0 || l.get_char(0) == '#' {
        return SecretLine::Skip;
    }
    let body: &str = match strip(l, "export ") {
        Some(b) => b,
        None => l,
    };
    match split_once_at(body, '=') {
        None => SecretLine::Skip,
        Some((k0, v0)) => {
            let k: &str = trim_str(k0);
            if env.is_set(k) {
                return SecretLine::Skip;
            }
            let v: &str = trim_str(v0);
            let n: usize = v.unicode_len();
            let quoted: bool = n > 0 && ((v.get_char(0) == '\'' && v.get_char(n - 1) == '\'')
                || (v.get_char(0) == '"' && v.get_char(n - 1) == '"'));
            if quoted && n < 2 {
                return SecretLine::Refused;
            }
            let w: &str = if quoted {
                v.substring_char(1, n - 1)
            } else {
                v
            };
            proof {
                reveal_strlit("${");
                reveal_strlit("}");
            }
            if starts(w, "${") && ends(w, "}") {
                let m: usize = w.unicode_len();
                proof {
                    assert(w@.take(2)[1] == '{');
                    assert(w@.skip(m - 1)[0] == '}');
                    assert(m >= 3);
                }
                let name: &str = w.substring_char(2, m - 1);
                match env.value(name) {
                    Some(x) => make_set(k, x),
                    None => SecretLine::Skip,
                }
            } else {
                make_set(k, w)
            }
        },
    }
}

/// What the lines of the secrets file come to, one after the other: the variables that are set,
/// in order, or nothing where a line is refused.
pub open spec fn secrets(
    ls: Seq<Seq<char>>,
    env: Map<Seq<char>, Seq<char>>,
) -> Option<Seq<(Seq<char>, Seq<char>)>>
    decreases ls.len(),
{
    if ls.len() == 0 {
        Some(seq![])
    } else {
        match secret(ls[0], env) {
            SecretView::Skip => secrets(ls.skip(1), env),
            SecretView::Refused => None,
            SecretView::Assign(k, v) => match secrets(ls.skip(1), env.insert(k, v)) {
                Some(rest) => Some(seq![(k, v)] + rest),
                None => None,
            },
        }
    }
}

/// The variables that are set before the first line that is refused, in order.
pub open spec fn carried_out(
    ls: Seq<Seq<char>>,
    env: Map<Seq<char>, Seq<char>>,
) -> Seq<(Seq<char>, Seq<char>)>
    decreases ls.len(),
{
    if ls.len() == 0 {
        seq![]
    } else {
        match secret(ls[0], env) {
            SecretView::Skip => carried_out(ls.skip(1), env),
            SecretView::Refused => seq![],
            SecretView::Assign(k, v) => seq![(k, v)] + carried_out(ls.skip(1), env.insert(k, v)),
        }
    }
}

/// An environment in which variables were set, one after the other.
pub open spec fn with_all(
    env: Map<Seq<char>, Seq<char>>,
    sets: Seq<(Seq<char>, Seq<char>)>,
) -> Map<Seq<char>, Seq<char>>
    decreases sets.len(),
{
    if sets.len() == 0 {
        env
    } else {
        with_all(env.insert(sets[0].0, sets[0].1), sets.skip(1))
    }
}

/// Sets the variables that the text of a secrets file asks for and hands them back in order.
/// Nothing comes back where a line asks for what no environment can hold: a variable without a
/// name, a zero character, or a value that is a single quote. What the lines before it ask for is
/// set all the same.
pub fn try_load_secrets(text: &str, env: &mut Environ) -> (r: Option<Vec<(String, String)>>)
    ensures
        match r {
            Some(sets) => secrets(lines(text@), old(env)@) == Some(text_pairs(sets@))
                && final(env)@ == with_all(old(env)@, text_pairs(sets@)),
            None => secrets(lines(text@), old(env)@) is None && final(env)@ == with_all(
                old(env)@,
                carried_out(lines(text@), old(env)@),
            ),
        },
{
    let ls: Vec<String> = lines_of(text);
    let ghost all = lines(text@);
    let ghost start = env@;
    let mut out: Vec<(String, String)> = Vec::new();
    let mut i: usize = 0;
    let ghost e = Seq::<(Seq<char>, Seq<char>)>::empty();
    proof {
        assert(all.skip(0) =~= all);
        assert(text_pairs(out@) =~= e);
        lemma_prefixed(e, secrets(all, env@));
        assert(e + carried_out(all, env@) =~= carried_out(all, env@));
    }
    while i < ls.len()
        invariant
            i <= ls@.len(),
            ls.deep_view() == all,
            all == lines(text@),
            start == old(env)@,
            env@ == with_all(start, text_pairs(out@)),
            secrets(all, start) == prefixed(text_pairs(out@), secrets(all.skip(i as int), env@)),
            carried_out(all, start) == text_pairs(out@) + carried_out(all.skip(i as int), env@),
        decreases ls@.len() - i,
    {
        let ghost rest = all.skip(i as int);
        let ghost done = text_pairs(out@);
        let ghost now = env@;
        proof {
            assert(ls.deep_view()[i as int] == ls@[i as int]@);
            assert(rest[0] == ls@[i as int]@);
            assert(rest.skip(1) =~= all.skip(i + 1));
        }
        match read_secret(&ls[i], env) {
            SecretLine::Skip => {},
            SecretLine::Refused => {
                assert(done + Seq::<(Seq<char>, Seq<char>)>::empty() =~= done);
                return None;
            },
            SecretLine::Assign(k, v) => {
                env.set_var(&k, &v);
                let ghost p = (k@, v@);
                out.push((k, v));
                proof {
                    assert(text_pairs(out@) =~= done.push(p));
                    lemma_with_all_push(start, done, p);
                    let tail = carried_out(all.skip(i + 1), env@);
                    assert(done + (seq![p] + tail) =~= done.push(p) + tail);
                    match secrets(all.skip(i + 1), env@) {
                        Some(tail) => {
                            assert(done + (seq![p] + tail) =~= done.push(p) + tail);
                        },
                        None => {},
                    }
                }
            },
        }
        i = i + 1;
    }
    proof {
        assert(all.skip(i as int) =~= Seq::<Seq<char>>::empty());
        assert(text_pairs(out@) + e =~= text_pairs(out@));
    }
    Some(out)
}

spec fn prefixed(
    a: Seq<(Seq<char>, Seq<char>)>,
    b: Option<Seq<(Seq<char>, Seq<char>)>>,
) -> Option<Seq<(Seq<char>, Seq<char>)>> {
    match b {
        Some(x) => Some(a + x),
        None => None,
    }
}

proof fn lemma_prefixed(
    e: Seq<(Seq<char>, Seq<char>)>,
    b: Option<Seq<(Seq<char>, Seq<char>)>>,
)
    requires
        e.len() == 0,
    ensures
        prefixed(e, b) == b,
{
    if let Some(x) = b {
        assert(e + x =~= x);
    }
}

proof fn lemma_with_all_push(
    env: Map<Seq<char>, Seq<char>>,
    sets: Seq<(Seq<char>, Seq<char>)>,
    p: (Seq<char>, Seq<char>),
)
    ensures
        with_all(env, sets.push(p)) == with_all(env, sets).insert(p.0, p.1),
    decreases sets.len(),
{
    if sets.len() == 0 {
        assert(sets.push(p).skip(1) =~= sets);
        reveal_with_fuel(with_all, 2);
    } else {
        lemma_with_all_push(env.insert(sets[0].0, sets[0].1), sets.skip(1), p);
        assert(sets.push(p).skip(1) =~= sets.skip(1).push(p));
    }
}

/// Sets the variables that the text of a secrets file asks for, where every line can be
/// carried out, and hands them back in order.
pub fn load_secrets_env(text: &str, env: &mut Environ) -> (r: Vec<(String, String)>)
    requires
        secrets(lines(text@), old(env)@) is Some,
    ensures
        secrets(lines(text@), old(env)@) == Some(text_pairs(r@)),
        final(env)@ == with_all(old(env)@, text_pairs(r@)),
{
    match try_load_secrets(text, env) {
        Some(sets) => sets,
        None => Vec::new(),
    }
}

/// A variable that was set before the secrets file is read keeps its value.
pub proof fn lemma_secrets_do_not_override(
    ls: Seq<Seq<char>>,
    env: Map<Seq<char>, Seq<char>>,
    name: Seq<char>,
)
    requires
        env.contains_key(name),
        secrets(ls, env) is Some,
    ensures
        with_all(env, secrets(ls, env)->0).contains_key(name),
        with_all(env, secrets(ls, env)->0)[name] == env[name],
    decreases ls.len(),
{
    if ls.len() > 0 {
        match secret(ls[0], env) {
            SecretView::Skip => {
                lemma_secrets_do_not_override(ls.skip(1), env, name);
            },
            SecretView::Refused => {},
            SecretView::Assign(k, v) => {
                assert(k != name);
                let next = env.insert(k, v);
                lemma_secrets_do_not_override(ls.skip(1), next, name);
                let rest = secrets(ls.skip(1), next)->0;
                assert((seq![(k, v)] + rest).skip(1) =~= rest);
            },
        }
    }
}

/// The first of the variables that is set.
pub open spec fn first_set(
    env: Map<Seq<char>, Seq<char>>,
    names: Seq<Seq<char>>,
) -> Option<Seq<char>>
    decreases names.len(),
{
    if names.len() == 0 {
        None
    } else if env.contains_key(names[0]) {
        Some(env[names[0]])
    } else {
        first_set(env, names.skip(1))
    }
}

/// The endpoint that goes with a key of its own.
pub open spec fn endpoint_of(
    env: Map<Seq<char>, Seq<char>>,
    openrouter: bool,
) -> (Option<Seq<char>>, Option<Seq<char>>) {
    if env.contains_key("DASHSCOPE_API_KEY"@) {
        (
            Some("https://coding-intl.dashscope.aliyuncs.com/v1"@),
            env_var(env, "DASHSCOPE_API_KEY"@),
        )
    } else if env.contains_key("DEEPSEEK_API_KEY"@) {
        (Some("https://api.deepseek.com/v1"@), env_var(env, "DEEPSEEK_API_KEY"@))
    } else if openrouter && env.contains_key("OPENROUTER_API_KEY"@) {
        (Some("https://openrouter.ai/api/v1"@), env_var(env, "OPENROUTER_API_KEY"@))
    } else {
        (None, env_var(env, "OPENAI_API_KEY"@))
    }
}

/// The endpoint and the key that the environment names: an endpoint of its own with the first
/// key there is, or the endpoint of the first provider that has a key.
pub open spec fn provider_and_key(
    env: Map<Seq<char>, Seq<char>>,
    openrouter: bool,
) -> (Option<Seq<char>>, Option<Seq<char>>) {
    if env.contains_key("OPENAI_BASE_URL"@) {
        let names = seq!["OPENAI_API_KEY"@, "DASHSCOPE_API_KEY"@, "DEEPSEEK_API_KEY"@];
        (
            env_var(env, "OPENAI_BASE_URL"@),
            first_set(
                env,
                if openrouter {
                    names.push("OPENROUTER_API_KEY"@)
                } else {
                    names
                },
            ),
        )
    } else {
        endpoint_of(env, openrouter)
    }
}

/// A copy of a variable.
fn var_of(env: &Environ, name: &str) -> (r: Option<String>)
    ensures
        r.deep_view() == env_var(env@, name@),
{
    match env.var(name) {
        Some(v) => Some(owned(v)),
        None => None,
    }
}

fn find_provider(env: &Environ, openrouter: bool) -> (r: (Option<String>, Option<String>))
    ensures
        (r.0.deep_view(), r.1.deep_view()) == provider_and_key(env@, openrouter),
{
    if let Some(base) = env.var("OPENAI_BASE_URL") {
        proof {
            reveal_with_fuel(first_set, 5);
        }
        let key: Option<String> = if env.is_set("OPENAI_API_KEY") {
            var_of(env, "OPENAI_API_KEY")
        } else if env.is_set("DASHSCOPE_API_KEY") {
            var_of(env, "DASHSCOPE_API_KEY")
        } else if env.is_set("DEEPSEEK_API_KEY") {
            var_of(env, "DEEPSEEK_API_KEY")
        } else if openrouter {
            var_of(env, "OPENROUTER_API_KEY")
        } else {
            None
        };
        return (Some(owned(base)), key);
    }
    if env.is_set("DASHSCOPE_API_KEY") {
        return (
            Some(owned("https://coding-intl.dashscope.aliyuncs.com/v1")),
            var_of(env, "DASHSCOPE_API_KEY"),
        );
    }
    if env.is_set("DEEPSEEK_API_KEY") {
        return (Some(owned("https://api.deepseek.com/v1")), var_of(env, "DEEPSEEK_API_KEY"));
    }
    if openrouter && env.is_set("OPENROUTER_API_KEY") {
        return (Some(owned("https://openrouter.ai/api/v1")), var_of(env, "OPENROUTER_API_KEY"));
    }
    (None, var_of(env, "OPENAI_API_KEY"))
}

/// The endpoint and the key that the environment names.
pub fn resolve_provider_and_key(env: &Environ) -> (r: (Option<String>, Option<String>))
    ensures
        (r.0.deep_view(), r.1.deep_view()) == provider_and_key(env@, true),
{
    find_provider(env, true)
}

/// The endpoint and the key for a single chat, which OpenRouter's key alone does not serve.
pub fn resolve_chat_provider_and_key(env: &Environ) -> (r: (Option<String>, Option<String>))
    ensures
        (r.0.deep_view(), r.1.deep_view()) == provider_and_key(env@, false),
{
    find_provider(env, false)
}

/// Whether a name can stand before the `=` of a line and be the name of a variable as it is.
pub open spec fn is_plain_name(k: Seq<char>) -> bool {
    &&& k.len() > 0 && !is_space(k[0]) && !is_space(k.last()) && k[0] != '#'
    &&& !k.contains('=') && !k.contains('\0') && !starts_with(k, "export "@)
}

/// Whether a value is free of white space at its ends.
pub open spec fn is_bare(v: Seq<char>) -> bool {
    v.len() > 0 ==> !is_space(v[0]) && !is_space(v.last())
}

proof fn lemma_secret_line(k: Seq<char>, v: Seq<char>, env: Map<Seq<char>, Seq<char>>)
    requires
        is_plain_name(k),
        is_bare(v),
    ensures
        secret(k + seq!['='] + v, env) == if env.contains_key(k) {
            SecretView::Skip
        } else {
            assignment(k, v, env)
        },
        secret("export "@ + k + seq!['='] + v, env) == secret(k + seq!['='] + v, env),
{
    reveal_strlit("export ");
    let l = k + seq!['='] + v;
    assert(l[0] == k[0]);
    assert(!is_space(l.last())) by {
        if v.len() > 0 {
            assert(l.last() == v.last());
        } else {
            assert(l.last() == '=');
        }
    }
    lemma_trim_fixed(l);
    lemma_trim_fixed(k);
    lemma_trim_fixed(v);
    lemma_split_once(k, '=', v);
    if starts_with(l, "export "@) {
        if k.len() >= 7 {
            assert(k.take(7) =~= l.take(7));
        } else {
            assert(l[k.len() as int] == '=');
            assert(l.take(7)[k.len() as int] == '=');
            assert("export "@[k.len() as int] != '=');
        }
        assert(false);
    }
    let e = "export "@ + k + seq!['='] + v;
    assert(e =~= "export "@ + l);
    assert(e[0] == 'e');
    assert(e.last() == l.last());
    lemma_trim_fixed(e);
    lemma_prefix("export "@, l, e);
}

/// A line `NAME=value` sets the variable to the whole value, with or without `export ` in front,
/// where it is not set yet; one that is set keeps its value.
pub proof fn lemma_plain_secret(k: Seq<char>, v: Seq<char>, env: Map<Seq<char>, Seq<char>>)
    requires
        is_plain_name(k),
        is_bare(v),
        !v.contains('\0'),
        v.len() > 0 ==> v[0] != '"' && v[0] != '\'' && v[0] != '$',
    ensures
        !env.contains_key(k) ==> secret(k + seq!['='] + v, env) == SecretView::Assign(k, v) && secret(
            "export "@ + k + seq!['='] + v,
            env,
        ) == SecretView::Assign(k, v),
        env.contains_key(k) ==> secret(k + seq!['='] + v, env) is Skip,
{
    reveal_strlit("${");
    lemma_secret_line(k, v, env);
    if starts_with(v, "${"@) {
        assert(v.take(2)[0] == '$');
    }
}

/// A value in quotes, of either kind, is what stands between them, white space and all.
pub proof fn lemma_quoted_secret(
    k: Seq<char>,
    v: Seq<char>,
    q: char,
    env: Map<Seq<char>, Seq<char>>,
)
    requires
        is_plain_name(k),
        q == '"' || q == '\'',
        !v.contains('\0'),
        v.len() > 0 ==> v[0] != '$',
        !env.contains_key(k),
    ensures
        secret(k + seq!['='] + (seq![q] + v + seq![q]), env) == SecretView::Assign(k, v),
{
    reveal_strlit("${");
    let w = seq![q] + v + seq![q];
    assert(w[0] == q && w.last() == q);
    lemma_secret_line(k, w, env);
    assert(w.subrange(1, w.len() - 1) =~= v);
    if starts_with(v, "${"@) {
        assert(v.take(2)[0] == '$');
    }
}

/// A value `${NAME}` is what that variable holds; where it holds nothing the line is passed over.
pub proof fn lemma_secret_reference(
    k: Seq<char>,
    name: Seq<char>,
    env: Map<Seq<char>, Seq<char>>,
)
    requires
        is_plain_name(k),
        !env.contains_key(k),
    ensures
        env.contains_key(name) && env[name].len() > 0 && !env[name].contains('\0') ==> secret(
            k + seq!['='] + (seq!['$', '{'] + name + seq!['}']),
            env,
        ) == SecretView::Assign(k, env[name]),
        !env.contains_key(name) || env[name].len() == 0 ==> secret(
            k + seq!['='] + (seq!['$', '{'] + name + seq!['}']),
            env,
        ) is Skip,
{
    reveal_strlit("${");
    reveal_strlit("}");
    let w = seq!['$', '{'] + name + seq!['}'];
    assert(w[0] == '$' && w.last() == '}');
    lemma_secret_line(k, w, env);
    assert(w.take(2) =~= "${"@);
    assert(w.skip(w.len() - 1) =~= "}"@);
    assert(w.subrange(2, w.len() - 1) =~= name);
}

/// Blank lines, comments and lines without `=` set nothing.
pub proof fn lemma_no_secret(line: Seq<char>, env: Map<Seq<char>, Seq<char>>)
    requires
        trim(line).len() == 0 || trim(line)[0] == '#' || !line.contains('='),
    ensures
        secret(line, env) is Skip,
{
    if trim(line).len() > 0 && trim(line)[0] != '#' {
        lemma_trim_ends(line);
        let l = trim(line);
        let body = match strip_prefix(l, "export "@) {
            Some(b) => b,
            None => l,
        };
        if body.contains('=') {
            let i = choose|i: int| 0 <= i < body.len() && body[i] == '=';
            assert(l[i + (l.len() - body.len())] == '=');
            assert(l.contains('='));
        }
        lemma_split_once(body, '=', body);
    }
}

/// Which endpoint and which key are used: an endpoint that is named takes the first of the keys for
/// it; otherwise the first provider with a key is used, at its own endpoint.
pub proof fn lemma_provider(env: Map<Seq<char>, Seq<char>>, openrouter: bool)
    ensures
        ({
            let (url, key) = provider_and_key(env, openrouter);
            let own = env.contains_key("OPENAI_BASE_URL"@);
            let openai = env.contains_key("OPENAI_API_KEY"@);
            let dashscope = env.contains_key("DASHSCOPE_API_KEY"@);
            let deepseek = env.contains_key("DEEPSEEK_API_KEY"@);
            let router = openrouter && env.contains_key("OPENROUTER_API_KEY"@);
            &&& own ==> url == Some(env["OPENAI_BASE_URL"@])
            &&& own && openai ==> key == Some(env["OPENAI_API_KEY"@])
            &&& own && !openai && dashscope ==> key == Some(env["DASHSCOPE_API_KEY"@])
            &&& own && !openai && !dashscope && deepseek ==> key == Some(env["DEEPSEEK_API_KEY"@])
            &&& own && !openai && !dashscope && !deepseek && router ==> key == Some(
                env["OPENROUTER_API_KEY"@],
            )
            &&& own && !openai && !dashscope && !deepseek && !router ==> key is None
            &&& !own && dashscope ==> url == Some("https://coding-intl.dashscope.aliyuncs.com/v1"@)
                && key == Some(env["DASHSCOPE_API_KEY"@])
            &&& !own && !dashscope && deepseek ==> url == Some("https://api.deepseek.com/v1"@) && key
                == Some(env["DEEPSEEK_API_KEY"@])
            &&& !own && !dashscope && !deepseek && router ==> url == Some(
                "https://openrouter.ai/api/v1"@,
            ) && key == Some(env["OPENROUTER_API_KEY"@])
            &&& !own && !dashscope && !deepseek && !router ==> url is None
            &&& !own && !dashscope && !deepseek && !router && openai ==> key == Some(
                env["OPENAI_API_KEY"@],
            )
            &&& !own && !dashscope && !deepseek && !router && !openai ==> key is None
        }),
{
    reveal_with_fuel(first_set, 5);
    let names = seq!["OPENAI_API_KEY"@, "DASHSCOPE_API_KEY"@, "DEEPSEEK_API_KEY"@];
    let all = if openrouter {
        names.push("OPENROUTER_API_KEY"@)
    } else {
        names
    };
    assert(all.skip(1)[0] == "DASHSCOPE_API_KEY"@);
    assert(all.skip(1).skip(1)[0] == "DEEPSEEK_API_KEY"@);
    if openrouter {
        assert(all.skip(1).skip(1).skip(1)[0] == "OPENROUTER_API_KEY"@);
    }
}

/// The lines of a secrets file are carried out in their order: what one of them sets is set for those
/// behind it; and where one is refused nothing comes of them all, though what stands before it was
/// set.
pub proof fn lemma_secrets_in_order(
    line: Seq<char>,
    ls: Seq<Seq<char>>,
    env: Map<Seq<char>, Seq<char>>,
)
    ensures
        secrets(Seq::empty(), env) == Some(Seq::<(Seq<char>, Seq<char>)>::empty()),
        secret(line, env) is Skip ==> secrets(seq![line] + ls, env) == secrets(ls, env)
            && carried_out(seq![line] + ls, env) == carried_out(ls, env),
        secret(line, env) is Refused ==> secrets(seq![line] + ls, env) is None && carried_out(
            seq![line] + ls,
            env,
        ).len() == 0,
        secret(line, env) matches SecretView::Assign(k, v) ==> {
            let after = env.insert(k, v);
            &&& secrets(ls, after) is Some ==> secrets(seq![line] + ls, env) == Some(
                seq![(k, v)] + secrets(ls, after)->0,
            )
            &&& secrets(ls, after) is None ==> secrets(seq![line] + ls, env) is None
            &&& carried_out(seq![line] + ls, env) == seq![(k, v)] + carried_out(ls, after)
        },
{
    let all = seq![line] + ls;
    assert(all[0] == line);
    assert(all.skip(1) =~= ls);
    assert(secrets(Seq::<Seq<char>>::empty(), env) == Some(Seq::<(Seq<char>, Seq<char>)>::empty()));
}

/// Variables that are set one after the other are all there, each with what was set last.
pub proof fn lemma_with_all(
    env: Map<Seq<char>, Seq<char>>,
    sets: Seq<(Seq<char>, Seq<char>)>,
    name: Seq<char>,
    value: Seq<char>,
)
    ensures
        with_all(env, sets.push((name, value))) == with_all(env, sets).insert(name, value),
        with_all(env, Seq::empty()) == env,
{
    lemma_with_all_push(env, sets, (name, value));
}

} // verus!
