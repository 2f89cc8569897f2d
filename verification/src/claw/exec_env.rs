//! Where commands run: on this host, in Docker, or over SSH.
//!
//! The choice is handed on in the variables `PIRS_SANDBOX` and `PIRS_SANDBOX_IMAGE`.

use vstd::prelude::*;

use crate::environ::{env_var, Environ};
use crate::text::chars::{
    is_space, lemma_trim_ends, lemma_trim_fixed, lower_text, owned, same, same_ignoring_case, trim,
    trim_str,
};
use crate::text::quote::{quoted, quoted_text};
use crate::text::search::{lemma_prefix, starts_with, strip, strip_prefix};

verus! {

/// Why a backend cannot be used.
#[derive(Debug)]
pub enum ExecError {
    NoSshTarget,
    Unsupported(String),
    Unknown(String),
}

/// Why a backend cannot be used.
pub enum ExecErrorView {
    NoSshTarget,
    Unsupported(Seq<char>),
    Unknown(Seq<char>),
}

impl View for ExecError {
    type V = ExecErrorView;

    open spec fn view(&self) -> ExecErrorView {
        match self {
            ExecError::NoSshTarget => ExecErrorView::NoSshTarget,
            ExecError::Unsupported(s) => ExecErrorView::Unsupported(s@),
            ExecError::Unknown(s) => ExecErrorView::Unknown(s@),
        }
    }
}

/// How an error reads.
pub open spec fn exec_error_text(e: ExecErrorView) -> Seq<char> {
    match e {
        ExecErrorView::NoSshTarget => "--exec ssh: requires user@host"@,
        ExecErrorView::Unsupported(s) => "exec backend "@ + quoted_text(s)
            + " is intentionally unsupported (Hermes gap exclusion). Use local, docker, docker:<image>, docker@<container>, or ssh:user@host"@,
        ExecErrorView::Unknown(s) => "unknown --exec "@ + quoted_text(s)
            + "; expected local | docker | docker:<image> | docker@<container> | ssh:user@host"@,
    }
}

impl ExecError {
    /// How this error reads.
    pub fn message(&self) -> (r: String)
        ensures
            r@ == exec_error_text(self@),
    {
        match self {
            ExecError::NoSshTarget => owned("--exec ssh: requires user@host"),
            ExecError::Unsupported(s) => {
                let mut out: String = owned("exec backend ");
                out.append(&quoted(s));
                out.append(
                    " is intentionally unsupported (Hermes gap exclusion). Use local, docker, docker:<image>, docker@<container>, or ssh:user@host",
                );
                out
            },
            ExecError::Unknown(s) => {
                let mut out: String = owned("unknown --exec ");
                out.append(&quoted(s));
                out.append(
                    "; expected local | docker | docker:<image> | docker@<container> | ssh:user@host",
                );
                out
            },
        }
    }
}

/// A backend that was chosen: what it is called, what `PIRS_SANDBOX` is to hold (nothing: the
/// variable is removed), and what `PIRS_SANDBOX_IMAGE` is to hold (nothing: it stays).
#[derive(Debug)]
pub struct ExecBackend {
    pub label: String,
    pub sandbox: Option<String>,
    pub image: Option<String>,
}

/// A backend that was chosen.
pub struct ExecBackendView {
    pub label: Seq<char>,
    pub sandbox: Option<Seq<char>>,
    pub image: Option<Seq<char>>,
}

impl View for ExecBackend {
    type V = ExecBackendView;

    open spec fn view(&self) -> ExecBackendView {
        ExecBackendView {
            label: self.label@,
            sandbox: self.sandbox.deep_view(),
            image: self.image.deep_view(),
        }
    }
}

/// Whether `s` names a backend that is left out on purpose.
pub open spec fn left_out(s: Seq<char>) -> bool {
    lower_text(s) == lower_text("modal"@) || lower_text(s) == lower_text("daytona"@)
        || lower_text(s) == lower_text("singularity"@)
}

/// The backend that a text names.
pub open spec fn exec_backend(spec_text: Seq<char>) -> Result<ExecBackendView, ExecErrorView> {
    let s = trim(spec_text);
    if s.len() == 0 || s == "local"@ {
        Ok(ExecBackendView { label: "local"@, sandbox: None, image: None })
    } else if s == "docker"@ {
        Ok(ExecBackendView { label: s, sandbox: Some(s), image: None })
    } else if let Some(container) = strip_prefix(s, "docker@"@) {
        Ok(ExecBackendView { label: s, sandbox: Some("docker:"@ + container), image: None })
    } else if let Some(image) = strip_prefix(s, "docker:"@) {
        Ok(ExecBackendView { label: s, sandbox: Some("docker"@), image: Some(image) })
    } else if let Some(target) = strip_prefix(s, "ssh:"@) {
        if target.len() == 0 {
            Err(ExecErrorView::NoSshTarget)
        } else {
            Ok(ExecBackendView { label: s, sandbox: Some(s), image: None })
        }
    } else if left_out(s) {
        Err(ExecErrorView::Unsupported(s))
    } else {
        Err(ExecErrorView::Unknown(s))
    }
}

/// Chooses where commands run. The caller carries the choice out on the environment.
pub fn apply_exec_backend(spec_text: &str) -> (r: Result<ExecBackend, ExecError>)
    ensures
        match r {
            Ok(b) => exec_backend(spec_text@) == Ok::<ExecBackendView, ExecErrorView>(b@),
            Err(e) => exec_backend(spec_text@) == Err::<ExecBackendView, ExecErrorView>(e@),
        },
{
    let s: &str = trim_str(spec_text);
    if s.unicode_len() == 0 || same(s, "local") {
        return Ok(ExecBackend { label: owned("local"), sandbox: None, image: None });
    }
    if same(s, "docker") {
        return Ok(ExecBackend { label: owned(s), sandbox: Some(owned(s)), image: None });
    }
    if let Some(container) = strip(s, "docker@") {
        let mut sandbox: String = owned("docker:");
        sandbox.append(container);
        return Ok(ExecBackend { label: owned(s), sandbox: Some(sandbox), image: None });
    }
    if let Some(image) = strip(s, "docker:") {
        return Ok(
            ExecBackend {
                label: owned(s),
                sandbox: Some(owned("docker")),
                image: Some(owned(image)),
            },
        );
    }
    if let Some(target) = strip(s, "ssh:") {
        if target.unicode_len() == 0 {
            return Err(ExecError::NoSshTarget);
        }
        return Ok(ExecBackend { label: owned(s), sandbox: Some(owned(s)), image: None });
    }
    if same_ignoring_case(s, "modal") || same_ignoring_case(s, "daytona") || same_ignoring_case(
        s,
        "singularity",
    ) {
        return Err(ExecError::Unsupported(owned(s)));
    }
    Err(ExecError::Unknown(owned(s)))
}

/// The backend that the environment asks for.
pub fn describe_active(env: &Environ) -> (r: String)
    ensures
        r@ == (match env_var(env@, "PIRS_SANDBOX"@) {
            Some(v) => v,
            None => "local"@,
        }),
{
    match env.var("PIRS_SANDBOX") {
        Some(v) => owned(v),
        None => owned("local"),
    }
}

proof fn lemma_docker_container(name: Seq<char>)
    requires
        name.len() > 0,
        !is_space(name.last()),
    ensures
        exec_backend("docker@"@ + name) == Ok::<ExecBackendView, ExecErrorView>(
            ExecBackendView {
                label: "docker@"@ + name,
                sandbox: Some("docker:"@ + name),
                image: None,
            },
        ),
{
    reveal_strlit("docker@");
    reveal_strlit("docker");
    reveal_strlit("local");
    let a = "docker@"@ + name;
    assert(a[0] == 'd');
    assert(a.last() == name.last());
    lemma_trim_fixed(a);
    lemma_prefix("docker@"@, name, a);
    assert(a.len() > 6);
    assert("local"@.len() == 5);
    assert("docker"@.len() == 6);
}

proof fn lemma_docker_image(name: Seq<char>)
    requires
        name.len() > 0,
        !is_space(name.last()),
    ensures
        exec_backend("docker:"@ + name) == Ok::<ExecBackendView, ExecErrorView>(
            ExecBackendView {
                label: "docker:"@ + name,
                sandbox: Some("docker"@),
                image: Some(name),
            },
        ),
{
    reveal_strlit("docker@");
    reveal_strlit("docker:");
    reveal_strlit("docker");
    reveal_strlit("local");
    let b = "docker:"@ + name;
    assert(b[0] == 'd');
    assert(b[6] == ':');
    assert(b.last() == name.last());
    lemma_trim_fixed(b);
    lemma_prefix("docker:"@, name, b);
    assert(b.len() > 6);
    assert("local"@.len() == 5);
    assert("docker"@.len() == 6);
    if starts_with(b, "docker@"@) {
        assert(b.take(7)[6] == '@');
    }
}

proof fn lemma_ssh_host(name: Seq<char>)
    requires
        name.len() > 0,
        !is_space(name.last()),
    ensures
        exec_backend("ssh:"@ + name) == Ok::<ExecBackendView, ExecErrorView>(
            ExecBackendView {
                label: "ssh:"@ + name,
                sandbox: Some("ssh:"@ + name),
                image: None,
            },
        ),
{
    reveal_strlit("docker@");
    reveal_strlit("docker:");
    reveal_strlit("docker");
    reveal_strlit("ssh:");
    reveal_strlit("local");
    let c = "ssh:"@ + name;
    assert(c[0] == 's');
    assert(c.last() == name.last());
    lemma_trim_fixed(c);
    lemma_prefix("ssh:"@, name, c);
    assert("local"@[0] == 'l');
    assert("docker"@[0] == 'd');
    if starts_with(c, "docker@"@) {
        assert(c.take(7)[0] == 'd');
    }
    if starts_with(c, "docker:"@) {
        assert(c.take(7)[0] == 'd');
    }
}

/// Which backend a text names, whatever is named behind its kind: a container, an image, or a host.
/// White space around it does not count, and nothing names this host.
pub proof fn lemma_backends(name: Seq<char>, around: Seq<char>)
    requires
        name.len() > 0,
        !is_space(name.last()),
    ensures
        exec_backend("docker@"@ + name) == Ok::<ExecBackendView, ExecErrorView>(
            ExecBackendView {
                label: "docker@"@ + name,
                sandbox: Some("docker:"@ + name),
                image: None,
            },
        ),
        exec_backend("docker:"@ + name) == Ok::<ExecBackendView, ExecErrorView>(
            ExecBackendView {
                label: "docker:"@ + name,
                sandbox: Some("docker"@),
                image: Some(name),
            },
        ),
        exec_backend("ssh:"@ + name) == Ok::<ExecBackendView, ExecErrorView>(
            ExecBackendView {
                label: "ssh:"@ + name,
                sandbox: Some("ssh:"@ + name),
                image: None,
            },
        ),
        exec_backend(around) == exec_backend(trim(around)),
        trim(around).len() == 0 ==> exec_backend(around) == Ok::<ExecBackendView, ExecErrorView>(
            ExecBackendView { label: "local"@, sandbox: None, image: None },
        ),
{
    lemma_docker_container(name);
    lemma_docker_image(name);
    lemma_ssh_host(name);
    lemma_trim_ends(around);
}

/// The names of backends that are left out on purpose, in any case, and those that are not known.
pub proof fn lemma_other_backends(s: Seq<char>)
    requires
        s.len() > 0,
        !is_space(s[0]) && !is_space(s.last()),
        s != "local"@ && s != "docker"@,
        !starts_with(s, "docker@"@) && !starts_with(s, "docker:"@) && !starts_with(s, "ssh:"@),
    ensures
        lower_text(s) == lower_text("modal"@) || lower_text(s) == lower_text("daytona"@) || lower_text(
            s,
        ) == lower_text("singularity"@) ==> exec_backend(s) == Err::<ExecBackendView, ExecErrorView>(
            ExecErrorView::Unsupported(s),
        ),
        lower_text(s) != lower_text("modal"@) && lower_text(s) != lower_text("daytona"@) && lower_text(
            s,
        ) != lower_text("singularity"@) ==> exec_backend(s) == Err::<ExecBackendView, ExecErrorView>(
            ExecErrorView::Unknown(s),
        ),
{
    lemma_trim_fixed(s);
}

/// How the errors read: each names the backend that was asked for.
pub proof fn lemma_exec_errors(s: Seq<char>)
    ensures
        exec_error_text(ExecErrorView::NoSshTarget) == "--exec ssh: requires user@host"@,
        exec_error_text(ExecErrorView::Unsupported(s)) == "exec backend "@ + quoted_text(s)
            + " is intentionally unsupported (Hermes gap exclusion). Use local, docker, docker:<image>, docker@<container>, or ssh:user@host"@,
        exec_error_text(ExecErrorView::Unknown(s)) == "unknown --exec "@ + quoted_text(s)
            + "; expected local | docker | docker:<image> | docker@<container> | ssh:user@host"@,
        exec_backend("ssh:"@) == Err::<ExecBackendView, ExecErrorView>(ExecErrorView::NoSshTarget),
        exec_backend("docker"@) == Ok::<ExecBackendView, ExecErrorView>(
            ExecBackendView { label: "docker"@, sandbox: Some("docker"@), image: None },
        ),
        exec_backend("local"@) == Ok::<ExecBackendView, ExecErrorView>(
            ExecBackendView { label: "local"@, sandbox: None, image: None },
        ),
{
    reveal_strlit("ssh:");
    reveal_strlit("docker");
    reveal_strlit("local");
    reveal_strlit("docker@");
    reveal_strlit("docker:");
    lemma_trim_fixed("ssh:"@);
    lemma_trim_fixed("docker"@);
    lemma_trim_fixed("local"@);
    assert("ssh:"@.len() == 4 && "docker"@.len() == 6 && "local"@.len() == 5);
    assert("docker@"@.len() == 7 && "docker:"@.len() == 7);
    assert("ssh:"@.take(4) =~= "ssh:"@);
}

} // verus!
