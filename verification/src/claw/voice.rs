//! Voice memos: the command that transcribes one, and what it said.

use vstd::prelude::*;

use crate::text::chars::{owned, trim, trim_str};
use crate::text::search::{replace, replace_all};

verus! {

/// The transcribers that are looked for where none is configured, in this order.
pub const TRANSCRIBERS: [&'static str; 3] = ["whisper", "whisper-cpp", "faster-whisper"];

/// The command that a template stands for, with the path of the memo filled in.
pub fn transcribe_command(template: &str, path: &str) -> (r: String)
    ensures
        r@ == replace(template@, "{path}"@, path@),
{
    proof {
        reveal_strlit("{path}");
    }
    replace_all(template, "{path}", path)
}

/// What a transcriber said: nothing where it failed or printed only white space.
pub fn transcript_of(success: bool, stdout: &str) -> (r: Option<String>)
    ensures
        r.deep_view() == (if success && trim(stdout@).len() > 0 {
            Some(trim(stdout@))
        } else {
            None
        }),
{
    let t: &str = trim_str(stdout);
    if success && t.unicode_len() > 0 {
        Some(owned(t))
    } else {
        None
    }
}

/// What is said where the file of a memo does not exist.
pub fn missing_audio_text(path: &str) -> (r: String)
    ensures
        r@ == "audio file not found: "@ + path@,
{
    let mut out: String = owned("audio file not found: ");
    out.append(path);
    out
}

/// How a memo is transcribed: by a configured shell command, or by the programs that are there, the
/// first of which that says something counting.
#[derive(Debug)]
pub struct VoicePlan {
    pub shell: bool,
    pub commands: Vec<Vec<String>>,
}

/// The command lines of programs, each with the path of the memo and the format that is asked for.
pub open spec fn program_lines(programs: Seq<Seq<char>>, path: Seq<char>) -> Seq<Seq<Seq<char>>> {
    programs.map_values(
        |p: Seq<char>| seq![p, path, "--output_format"@, "txt"@],
    )
}

/// The programs of `all` that are there, in order.
pub open spec fn present(all: Seq<Seq<char>>, there: Seq<bool>) -> Seq<Seq<char>>
    decreases all.len(),
{
    if all.len() == 0 {
        Seq::empty()
    } else if there[all.len() - 1] {
        present(all.drop_last(), there).push(all.last())
    } else {
        present(all.drop_last(), there)
    }
}

/// The names of the transcribers.
pub open spec fn transcriber_names() -> Seq<Seq<char>> {
    seq!["whisper"@, "whisper-cpp"@, "faster-whisper"@]
}

/// How a memo is transcribed, or why it cannot be. `there` says for each of the transcribers whether
/// it is installed.
pub fn transcribe_audio(
    path: &str,
    is_file: bool,
    template: Option<&str>,
    there: [bool; 3],
) -> (r: Result<VoicePlan, String>)
    ensures
        match r {
            Err(e) => !is_file && e@ == "audio file not found: "@ + path@,
            Ok(plan) => is_file && (match template {
                Some(t) => plan.shell && plan.commands.deep_view() == seq![
                    seq!["sh"@, "-c"@, replace(t@, "{path}"@, path@)],
                ],
                None => !plan.shell && plan.commands.deep_view() == program_lines(
                    present(transcriber_names(), there@),
                    path@,
                ),
            }),
        },
{
    if !is_file {
        return Err(missing_audio_text(path));
    }
    let mut commands: Vec<Vec<String>> = Vec::new();
    if let Some(t) = template {
        let mut line: Vec<String> = Vec::new();
        line.push(owned("sh"));
        line.push(owned("-c"));
        line.push(transcribe_command(t, path));
        proof {
            assert(line.deep_view() =~= seq!["sh"@, "-c"@, replace(t@, "{path}"@, path@)]);
        }
        let ghost shown = line.deep_view();
        commands.push(line);
        assert(commands.deep_view() =~= seq![shown]);
        return Ok(VoicePlan { shell: true, commands });
    }
    let ghost names = transcriber_names();
    let mut i: usize = 0;
    assert(commands.deep_view() =~= program_lines(present(names.take(0), there@), path@));
    while i < 3
        invariant
            i <= 3,
            names == transcriber_names(),
            commands.deep_view() == program_lines(present(names.take(i as int), there@), path@),
        decreases 3 - i,
    {
        proof {
            assert(names.take(i + 1).drop_last() =~= names.take(i as int));
            assert(names.take(i + 1).last() == names[i as int]);
        }
        if there[i] {
            let mut line: Vec<String> = Vec::new();
            line.push(owned(TRANSCRIBERS[i]));
            line.push(owned(path));
            line.push(owned("--output_format"));
            line.push(owned("txt"));
            let ghost before = commands.deep_view();
            let ghost now = present(names.take(i as int), there@);
            proof {
                assert(TRANSCRIBERS[i as int]@ == names[i as int]);
                assert(line.deep_view() =~= seq![
                    names[i as int],
                    path@,
                    "--output_format"@,
                    "txt"@,
                ]);
            }
            let ghost shown = line.deep_view();
            commands.push(line);
            proof {
                assert(commands.deep_view() =~= before.push(shown));
                assert(program_lines(now.push(names[i as int]), path@) =~= program_lines(
                    now,
                    path@,
                ).push(shown));
            }
        }
        i = i + 1;
    }
    assert(names.take(3) =~= names);
    Ok(VoicePlan { shell: false, commands })
}

/// What came of a command: it ran, or it could not be started.
#[derive(Debug)]
pub enum VoiceEvent {
    Ran { success: bool, stdout: String },
    NotStarted { error: String },
}

/// What follows: a transcript, the next command, nothing, or an error.
#[derive(Debug)]
pub enum VoiceStep {
    Said { text: String },
    Next { at: usize },
    Nothing,
    Failed { error: String },
}

impl VoicePlan {
    /// What follows after the command at `at`. A configured command that cannot be started is an
    /// error; a program that cannot be, or that says nothing, makes way for the next one.
    pub fn after(&self, at: usize, event: VoiceEvent) -> (r: VoiceStep)
        requires
            at < self.commands@.len(),
        ensures
            match event {
                VoiceEvent::Ran { success, stdout } if success && trim(stdout@).len() > 0 => r
                    matches VoiceStep::Said { text } && text@ == trim(stdout@),
                VoiceEvent::NotStarted { error } if self.shell => r matches VoiceStep::Failed {
                    error: e,
                } && e == error,
                _ => if at + 1 < self.commands@.len() {
                    r matches VoiceStep::Next { at: n } && n == at + 1
                } else {
                    r is Nothing
                },
            },
    {
        match event {
            VoiceEvent::Ran { success, stdout } => {
                if let Some(text) = transcript_of(success, stdout.as_str()) {
                    return VoiceStep::Said { text };
                }
            },
            VoiceEvent::NotStarted { error } => {
                if self.shell {
                    return VoiceStep::Failed { error };
                }
            },
        }
        let n: usize = self.commands.len();
        if at < n - 1 {
            VoiceStep::Next { at: at + 1 }
        } else {
            VoiceStep::Nothing
        }
    }
}

/// Which transcribers are tried: those that are installed, in the order of the names.
pub proof fn lemma_present(all: Seq<Seq<char>>, name: Seq<char>, there: Seq<bool>)
    ensures
        there[all.len() as int] ==> present(all.push(name), there) == present(all, there).push(name),
        !there[all.len() as int] ==> present(all.push(name), there) == present(all, there),
        present(Seq::empty(), there) == Seq::<Seq<char>>::empty(),
        transcriber_names() == seq!["whisper"@, "whisper-cpp"@, "faster-whisper"@],
{
    assert(all.push(name).drop_last() =~= all);
    assert(present(Seq::<Seq<char>>::empty(), there) =~= Seq::<Seq<char>>::empty());
}

/// Each program is asked for plain text, and gets the path of the memo.
pub proof fn lemma_program_line(programs: Seq<Seq<char>>, path: Seq<char>, i: int)
    requires
        0 <= i < programs.len(),
    ensures
        program_lines(programs, path).len() == programs.len(),
        program_lines(programs, path)[i] == seq![programs[i], path, "--output_format"@, "txt"@],
{
}

} // verus!
