//! Skills: Markdown files with optional front matter, shown to the model.

use vstd::prelude::*;

use crate::environ::{env_var, Environ};
use crate::text::chars::{
    is_some_text, lemma_trim_core, owned, same, trim, trim_start, trim_start_str, trim_str,
};
use crate::text::lines::{lines, lines_of};
use crate::text::order::{le, lemma_le_reflexive, lemma_le_total, lemma_le_transitive, text_le};
use crate::text::path::{extension, join_path, joined, last_name, names_file, stem};
use crate::text::search::{
    find, find_str, lemma_find_is, lemma_prefix, occurs_at, skip_str, starts_with, strip, strip_prefix,
    take_str, trim_char, trim_char_of,
};
use crate::text::table::Table;

verus! {

/// A skill.
#[derive(Debug, Clone)]
pub struct Skill {
    pub name: String,
    pub description: String,
    pub body: String,
    pub path: String,
}

/// A skill.
pub struct SkillView {
    pub name: Seq<char>,
    pub description: Seq<char>,
    pub body: Seq<char>,
    pub path: Seq<char>,
}

impl View for Skill {
    type V = SkillView;

    open spec fn view(&self) -> SkillView {
        SkillView {
            name: self.name@,
            description: self.description@,
            body: self.body@,
            path: self.path@,
        }
    }
}

/// What the skills are.
pub open spec fn skills_view(s: Seq<Skill>) -> Seq<SkillView> {
    Seq::new(s.len(), |i: int| s[i]@)
}

/// Where skills are kept: `.pirs/skills` below the home directory, or below the current one
/// where there is no home.
pub open spec fn skills_dir(env: Map<Seq<char>, Seq<char>>) -> Seq<char> {
    let home = match env_var(env, "HOME"@) {
        Some(h) => h,
        None => "."@,
    };
    joined(joined(home, ".pirs"@), "skills"@)
}

/// Where skills are kept.
pub fn default_skills_dir(env: &Environ) -> (r: String)
    ensures
        r@ == skills_dir(env@),
{
    let home: &str = match env.var("HOME") {
        Some(h) => h,
        None => ".",
    };
    join_path(&join_path(home, ".pirs"), "skills")
}

/// What `Path::file_stem` takes out of a path.
pub uninterp spec fn file_stem_text(path: Seq<char>) -> Option<Seq<char>>;

/// Calls `Path::file_stem`: the file name without its extension is a function of the path,
/// named `file_stem_text`. Of a path that ends in a name, it is that name up to its last dot.
#[verifier::external_body]
fn stem_of(path: &str) -> (r: Option<String>)
    ensures
        r.deep_view() == file_stem_text(path@),
        names_file(path@) ==> r.deep_view() == Some(stem(last_name(path@))),
{
    std::path::Path::new(path).file_stem().and_then(|s| s.to_str()).map(|s| s.to_owned())
}

/// What `Path::extension` takes out of a path.
pub uninterp spec fn extension_text(path: Seq<char>) -> Option<Seq<char>>;

/// Calls `Path::extension`: the extension is a function of the path, named `extension_text`. Of a
/// path that ends in a name, it is what stands behind the last dot of that name.
#[verifier::external_body]
fn extension_of(path: &str) -> (r: Option<String>)
    ensures
        r.deep_view() == extension_text(path@),
        names_file(path@) ==> r.deep_view() == extension(last_name(path@)),
{
    std::path::Path::new(path).extension().and_then(|s| s.to_str()).map(|s| s.to_owned())
}

/// The value in the last line of the front matter that starts with a key.
pub open spec fn front_value(ls: Seq<Seq<char>>, key: Seq<char>) -> Option<Seq<char>>
    decreases ls.len(),
{
    if ls.len() == 0 {
        None
    } else {
        match strip_prefix(trim(ls.last()), key) {
            Some(v) => Some(trim_char(trim(v), '"')),
            None => front_value(ls.drop_last(), key),
        }
    }
}

/// The front matter and the body of a skill file: what stands between the fences `---`, and
/// what comes behind them.
pub open spec fn fenced(raw: Seq<char>) -> Option<(Seq<char>, Seq<char>)> {
    match strip_prefix(raw, "---"@) {
        None => None,
        Some(rest) => match find(rest, "\n---"@) {
            None => None,
            Some(end) => Some((rest.take(end as int), rest.skip(end as int + 4))),
        },
    }
}

/// The skill in a file with the given contents, path and file name. The name is that of the
/// front matter, or else the file's; without either it is `skill`.
pub open spec fn skill_named(
    raw: Seq<char>,
    path: Seq<char>,
    stem: Option<Seq<char>>,
) -> SkillView {
    let usual = match stem {
        Some(s) => s,
        None => "skill"@,
    };
    match fenced(raw) {
        None => SkillView { name: usual, description: seq![], body: trim(raw), path },
        Some((front, body)) => SkillView {
            name: match front_value(lines(front), "name:"@) {
                Some(n) => n,
                None => usual,
            },
            description: match front_value(lines(front), "description:"@) {
                Some(d) => d,
                None => seq![],
            },
            body: trim(trim_start(body)),
            path,
        },
    }
}

/// The skill in a file.
pub open spec fn skill_at(raw: Seq<char>, path: Seq<char>) -> SkillView {
    skill_named(raw, path, file_stem_text(path))
}

/// Reads a skill file with the given contents, path and file name.
pub fn parse_skill(raw: &str, path: &str, stem: Option<String>) -> (r: Skill)
    ensures
        r@ == skill_named(raw@, path@, stem.deep_view()),
{
    let usual: String = match stem {
        Some(s) => s,
        None => owned("skill"),
    };
    if let Some(rest) = strip(raw, "---") {
        proof {
            reveal_strlit("\n---");
        }
        if let Some(end) = find_str(rest, "\n---") {
            let front: &str = take_str(rest, end);
            let body: &str = trim_start_str(skip_str(rest, end + 4));
            let ls: Vec<String> = lines_of(front);
            let ghost all = lines(front@);
            let mut name: Option<String> = None;
            let mut description: Option<String> = None;
            let mut i: usize = 0;
            while i < ls.len()
                invariant
                    i <= ls@.len(),
                    ls.deep_view() == all,
                    name.deep_view() == front_value(all.take(i as int), "name:"@),
                    description.deep_view() == front_value(all.take(i as int), "description:"@),
                decreases ls@.len() - i,
            {
                proof {
                    assert(ls.deep_view()[i as int] == ls@[i as int]@);
                    assert(all.take(i + 1).drop_last() =~= all.take(i as int));
                    assert(all.take(i + 1).last() == ls@[i as int]@);
                }
                let line: &str = trim_str(&ls[i]);
                if let Some(v) = strip(line, "name:") {
                    name = Some(owned(trim_char_of(trim_str(v), '"')));
                    proof {
                        lemma_keys_differ(line@);
                    }
                } else if let Some(v) = strip(line, "description:") {
                    description = Some(owned(trim_char_of(trim_str(v), '"')));
                }
                i = i + 1;
            }
            assert(all.take(i as int) =~= all);
            return Skill {
                name: match name {
                    Some(n) => n,
                    None => usual,
                },
                description: match description {
                    Some(d) => d,
                    None => String::new(),
                },
                body: owned(trim_str(body)),
                path: owned(path),
            };
        }
    }
    Skill {
        name: usual,
        description: String::new(),
        body: owned(trim_str(raw)),
        path: owned(path),
    }
}

proof fn lemma_keys_differ(line: Seq<char>)
    requires
        strip_prefix(line, "name:"@) is Some,
    ensures
        strip_prefix(line, "description:"@) is None,
{
    reveal_strlit("name:");
    reveal_strlit("description:");
    assert(line.take(5)[0] == 'n');
    if strip_prefix(line, "description:"@) is Some {
        assert(line.take(12)[0] == 'd');
    }
}

/// Reads a skill file.
pub fn parse_skill_md(raw: &str, path: &str) -> (r: Skill)
    ensures
        r@ == skill_at(raw@, path@),
        names_file(path@) ==> r@ == skill_named(raw@, path@, Some(stem(last_name(path@)))),
{
    parse_skill(raw, path, stem_of(path))
}

/// Something in a directory: its path and what it is.
#[derive(Debug)]
pub struct DirEntry {
    pub path: String,
    pub node: DirNode,
}

/// What something in a directory is: a file with its contents where they can be read, a
/// directory that holds `SKILL.md` with the contents of that, or any other directory.
#[derive(Debug)]
pub enum DirNode {
    File(Option<String>),
    SkillDir(Option<String>),
    Dir(Vec<DirEntry>),
}

/// The skills in a directory and, down to the third level below, in its directories: every
/// Markdown file, and of a directory with a `SKILL.md` that file alone.
pub open spec fn walked(s: Seq<DirEntry>, depth: nat) -> Seq<SkillView>
    decreases 4 - depth, s.len(),
{
    if depth > 3 || s.len() == 0 {
        seq![]
    } else {
        walked(s.drop_last(), depth) + (match s.last().node {
            DirNode::File(Some(raw)) => if extension_text(s.last().path@) == Some("md"@) {
                seq![skill_at(raw@, s.last().path@)]
            } else {
                seq![]
            },
            DirNode::File(None) => seq![],
            DirNode::SkillDir(Some(raw)) => seq![
                skill_at(raw@, joined(s.last().path@, "SKILL.md"@)),
            ],
            DirNode::SkillDir(None) => seq![],
            DirNode::Dir(inner) => walked(inner@, depth + 1),
        })
    }
}

fn walk(entries: &Vec<DirEntry>, depth: u32, out: &mut Vec<Skill>)
    requires
        depth <= 4,
    ensures
        skills_view(final(out)@) == skills_view(old(out)@) + walked(entries@, depth as nat),
    decreases 4 - depth,
{
    let ghost start = skills_view(out@);
    assert(start + Seq::<SkillView>::empty() =~= start);
    if depth > 3 {
        return;
    }
    let mut i: usize = 0;
    while i < entries.len()
        invariant
            i <= entries@.len(),
            depth <= 3,
            skills_view(out@) == start + walked(entries@.take(i as int), depth as nat),
        decreases entries@.len() - i,
    {
        let e: &DirEntry = &entries[i];
        let ghost before = skills_view(out@);
        let ghost s = entries@.take(i + 1);
        proof {
            assert(s.drop_last() =~= entries@.take(i as int));
            assert(s.last() == *e);
        }
        match &e.node {
            DirNode::File(Some(raw)) => {
                if is_some_text(&extension_of(&e.path), "md") {
                    let k: Skill = parse_skill_md(raw, &e.path);
                    out.push(k);
                    assert(skills_view(out@) =~= before + seq![k@]);
                } else {
                    assert(before + Seq::<SkillView>::empty() =~= before);
                }
            },
            DirNode::SkillDir(Some(raw)) => {
                let path: String = join_path(&e.path, "SKILL.md");
                let k: Skill = parse_skill_md(raw, &path);
                out.push(k);
                assert(skills_view(out@) =~= before + seq![k@]);
            },
            DirNode::Dir(inner) => {
                walk(inner, depth + 1, out);
            },
            DirNode::File(None) => {
                assert(before + Seq::<SkillView>::empty() =~= before);
            },
            DirNode::SkillDir(None) => {
                assert(before + Seq::<SkillView>::empty() =~= before);
            },
        }
        proof {
            let w = walked(entries@.take(i as int), depth as nat);
            let more = skills_view(out@).skip(before.len() as int);
            assert(skills_view(out@) =~= before + more);
            assert(start + w + more =~= start + (w + more));
            assert(walked(s, depth as nat) =~= w + more);
        }
        i = i + 1;
    }
    assert(entries@.take(i as int) =~= entries@);
}

/// Whether skills stand in the order of their names.
pub open spec fn by_name(s: Seq<SkillView>) -> bool {
    forall|i: int, j: int|
        0 <= i < j < s.len() ==> text_le((#[trigger] s[i]).name, (#[trigger] s[j]).name)
}

/// The skills with a name, in their order.
pub open spec fn with_name(s: Seq<SkillView>, name: Seq<char>) -> Seq<SkillView>
    decreases s.len(),
{
    if s.len() == 0 {
        seq![]
    } else if s.last().name == name {
        with_name(s.drop_last(), name).push(s.last())
    } else {
        with_name(s.drop_last(), name)
    }
}

/// Whether `r` holds the skills of `s` in the order of their names, those with one name in the
/// order in which they stood.
pub open spec fn is_sorted_from(r: Seq<SkillView>, s: Seq<SkillView>) -> bool {
    by_name(r) && r.len() == s.len() && forall|n: Seq<char>|
        #![trigger with_name(r, n)]
        with_name(r, n) == with_name(s, n)
}

proof fn lemma_with_name_add(a: Seq<SkillView>, b: Seq<SkillView>, n: Seq<char>)
    ensures
        with_name(a + b, n) == with_name(a, n) + with_name(b, n),
    decreases b.len(),
{
    if b.len() == 0 {
        assert(a + b =~= a);
        assert(with_name(a, n) + with_name(b, n) =~= with_name(a, n));
    } else {
        assert((a + b).drop_last() =~= a + b.drop_last());
        lemma_with_name_add(a, b.drop_last(), n);
        if b.last().name == n {
            assert(with_name(a, n) + with_name(b.drop_last(), n).push(b.last()) =~= (with_name(a, n)
                + with_name(b.drop_last(), n)).push(b.last()));
        }
    }
}

proof fn lemma_with_name_none(s: Seq<SkillView>, n: Seq<char>)
    requires
        forall|i: int| 0 <= i < s.len() ==> (#[trigger] s[i]).name != n,
    ensures
        with_name(s, n) == Seq::<SkillView>::empty(),
    decreases s.len(),
{
    if s.len() > 0 {
        assert(s[s.len() - 1].name != n);
        assert forall|i: int| 0 <= i < s.drop_last().len() implies (
        #[trigger] s.drop_last()[i]).name != n by {
            assert(s.drop_last()[i] == s[i]);
        }
        lemma_with_name_none(s.drop_last(), n);
    }
}

/// Putting a skill behind those whose names come no later keeps the order.
proof fn lemma_insert(r: Seq<SkillView>, s: Seq<SkillView>, x: SkillView, p: int)
    requires
        is_sorted_from(r, s),
        0 <= p <= r.len(),
        forall|i: int| 0 <= i < p ==> text_le((#[trigger] r[i]).name, x.name),
        p < r.len() ==> !text_le(r[p].name, x.name),
    ensures
        is_sorted_from(r.insert(p, x), s.push(x)),
{
    let q = r.insert(p, x);
    assert forall|i: int| p <= i < r.len() implies text_le(x.name, (#[trigger] r[i]).name)
        && r[i].name != x.name by {
        lemma_le_total(x.name, r[p].name);
        if i > p {
            assert(text_le(r[p].name, r[i].name));
            lemma_le_transitive(x.name, r[p].name, r[i].name);
            if r[i].name == x.name {
                assert(false);
            }
        } else {
            lemma_le_reflexive(x.name);
        }
    }
    assert forall|i: int, j: int| 0 <= i < j < q.len() implies text_le(
        (#[trigger] q[i]).name,
        (#[trigger] q[j]).name,
    ) by {
        if i < p && j < p {
            assert(text_le(r[i].name, r[j].name));
        } else if i < p && j == p {
            assert(text_le(r[i].name, x.name));
        } else if i < p {
            assert(text_le(r[i].name, r[j - 1].name));
        } else if i == p {
            assert(text_le(x.name, r[j - 1].name));
        } else {
            assert(text_le(r[i - 1].name, r[j - 1].name));
        }
    }
    assert forall|n: Seq<char>| #![trigger with_name(q, n)] with_name(q, n) == with_name(
        s.push(x),
        n,
    ) by {
        let a = r.take(p);
        let b = r.skip(p);
        assert(r =~= a + b);
        assert(q =~= a + seq![x] + b);
        lemma_with_name_add(a, b, n);
        lemma_with_name_add(a + seq![x], b, n);
        lemma_with_name_add(a, seq![x], n);
        assert(seq![x].drop_last() =~= Seq::<SkillView>::empty());
        assert(s.push(x).drop_last() =~= s);
        assert(with_name(r, n) == with_name(s, n));
        reveal_with_fuel(with_name, 2);
        if n == x.name {
            assert forall|i: int| 0 <= i < b.len() implies (#[trigger] b[i]).name != n by {
                assert(b[i] == r[p + i]);
            }
            lemma_with_name_none(b, n);
            assert(with_name(seq![x], n) =~= seq![x]);
            assert(with_name(a, n) + Seq::<SkillView>::empty() =~= with_name(a, n));
            assert(with_name(a, n) + seq![x] + Seq::<SkillView>::empty() =~= with_name(a, n).push(
                x,
            ));
        } else {
            assert(with_name(seq![x], n) =~= Seq::<SkillView>::empty());
            assert(with_name(a, n) + Seq::<SkillView>::empty() + with_name(b, n) =~= with_name(a, n)
                + with_name(b, n));
        }
    }
}

/// Puts skills into the order of their names.
fn sort_by_name(skills: Vec<Skill>) -> (r: Vec<Skill>)
    ensures
        is_sorted_from(skills_view(r@), skills_view(skills@)),
{
    let ghost all = skills@;
    let mut out: Vec<Skill> = Vec::new();
    assert(skills_view(all).take(0) =~= Seq::<SkillView>::empty());
    assert(skills_view(out@) =~= Seq::<SkillView>::empty());
    for k in it: skills
        invariant
            it.seq() == all,
            is_sorted_from(skills_view(out@), skills_view(all).take(it.index())),
    {
        let ghost v = skills_view(out@);
        let n: usize = out.len();
        let mut p: usize = 0;
        while p < n && le(&out[p].name, &k.name)
            invariant
                p <= n,
                n == out@.len(),
                v == skills_view(out@),
                forall|i: int| 0 <= i < p ==> text_le((#[trigger] v[i]).name, k.name@),
            decreases n - p,
        {
            assert(v[p as int] == out@[p as int]@);
            p = p + 1;
        }
        proof {
            if p < n {
                assert(v[p as int] == out@[p as int]@);
            }
            let s = skills_view(all).take(it.index());
            lemma_insert(v, s, k@, p as int);
            assert(skills_view(all).take(it.index() + 1) =~= s.push(k@));
            assert(skills_view(out@.insert(p as int, k)) =~= v.insert(p as int, k@));
        }
        out.insert(p, k);
    }
    assert(skills_view(all).take(all.len() as int) =~= skills_view(all));
    out
}

/// The skills below a directory, in the order of their names.
pub fn load_skills(entries: &Vec<DirEntry>) -> (r: Vec<Skill>)
    ensures
        is_sorted_from(skills_view(r@), walked(entries@, 0)),
{
    let mut out: Vec<Skill> = Vec::new();
    walk(entries, 0, &mut out);
    assert(skills_view(out@) =~= walked(entries@, 0));
    sort_by_name(out)
}

/// One skill as the model sees it.
pub open spec fn skill_section(k: SkillView) -> Seq<char> {
    "\n### "@ + k.name + "\n"@ + k.description + "\n\n"@ + k.body + "\n"@
}

/// The skills as the model sees them, one after the other.
pub open spec fn skill_sections(s: Seq<SkillView>) -> Seq<char>
    decreases s.len(),
{
    if s.len() == 0 {
        seq![]
    } else {
        skill_sections(s.drop_last()) + skill_section(s.last())
    }
}

/// The skills as the model sees them: nothing where there are none.
pub fn skills_prompt_section(skills: &[Skill]) -> (r: String)
    ensures
        r@ == (if skills@.len() == 0 {
            seq![]
        } else {
            "\n\n## Available skills\n"@ + skill_sections(skills_view(skills@))
        }),
{
    if skills.len() == 0 {
        return String::new();
    }
    let ghost all = skills_view(skills@);
    let mut out: String = owned("\n\n## Available skills\n");
    let ghost head = out@;
    let mut i: usize = 0;
    assert(head + skill_sections(all.take(0)) =~= head);
    while i < skills.len()
        invariant
            i <= skills@.len(),
            all == skills_view(skills@),
            out@ == head + skill_sections(all.take(i as int)),
        decreases skills@.len() - i,
    {
        let k: &Skill = &skills[i];
        let ghost before = out@;
        out.append("\n### ");
        out.append(&k.name);
        out.append("\n");
        out.append(&k.description);
        out.append("\n\n");
        out.append(&k.body);
        out.append("\n");
        proof {
            assert(all.take(i + 1).drop_last() =~= all.take(i as int));
            assert(all.take(i + 1).last() == k@);
            assert(out@ =~= before + skill_section(k@));
            assert(head + skill_sections(all.take(i + 1)) =~= before + skill_section(k@));
        }
        i = i + 1;
    }
    assert(all.take(i as int) =~= all);
    out
}

/// The first skill with a name.
pub fn find_skill<'a>(skills: &'a [Skill], name: &str) -> (r: Option<&'a Skill>)
    ensures
        match r {
            Some(k) => exists|i: int|
                0 <= i < skills@.len() && *k == #[trigger] skills@[i] && k.name@ == name@
                    && forall|j: int| 0 <= j < i ==> (#[trigger] skills@[j]).name@ != name@,
            None => forall|j: int| 0 <= j < skills@.len() ==> (#[trigger] skills@[j]).name@ != name@,
        },
{
    let mut i: usize = 0;
    while i < skills.len()
        invariant
            i <= skills@.len(),
            forall|j: int| 0 <= j < i ==> (#[trigger] skills@[j]).name@ != name@,
        decreases skills@.len() - i,
    {
        if same(&skills[i].name, name) {
            return Some(&skills[i]);
        }
        i = i + 1;
    }
    None
}

/// Where a skill is installed to: `SKILL.md` in a directory that has its name.
pub open spec fn install_path(k: SkillView, dest_root: Seq<char>) -> Seq<char> {
    joined(joined(dest_root, k.name), "SKILL.md"@)
}

/// The directory and the file that a skill is installed to.
pub fn install_skill(raw: &str, src: &str, dest_root: &str) -> (r: (String, String))
    ensures
        r.0@ == joined(dest_root@, skill_at(raw@, src@).name),
        r.1@ == install_path(skill_at(raw@, src@), dest_root@),
{
    let k: Skill = parse_skill_md(raw, src);
    let dir: String = join_path(dest_root, &k.name);
    let file: String = join_path(&dir, "SKILL.md");
    (dir, file)
}

/// What is said where there is nothing to install.
pub fn missing_skill_text(src: &str) -> (r: String)
    ensures
        r@ == "skill path not found: "@ + src@,
{
    let mut out: String = owned("skill path not found: ");
    out.append(src);
    out
}

/// Where it is counted how often skills are used.
pub fn usage_path(env: &Environ) -> (r: String)
    ensures
        r@ == joined(skills_dir(env@), "usage.json"@),
{
    join_path(&default_skills_dir(env), "usage.json")
}

/// The counts in a list; of two with one name the later counts.
pub open spec fn listed_counts(s: Seq<(String, u64)>) -> Map<Seq<char>, u64>
    decreases s.len(),
{
    if s.len() == 0 {
        Map::empty()
    } else {
        listed_counts(s.drop_last()).insert(s.last().0@, s.last().1)
    }
}

/// What `serde_json::from_str` reads out of a text as a map from texts to `u64`; nothing where it
/// reports an error.
pub uninterp spec fn counts_of_text(t: Seq<char>) -> Option<Map<Seq<char>, u64>>;

/// Calls `serde_json::from_str` for a `BTreeMap<String, u64>`: what it reads is a function of the
/// text, named `counts_of_text`.
#[verifier::external_body]
fn counts_from(t: &str) -> (r: Option<Vec<(String, u64)>>)
    ensures
        match r {
            Some(c) => counts_of_text(t@) == Some(listed_counts(c@)),
            None => counts_of_text(t@) is None,
        },
{
    let counts: std::collections::BTreeMap<String, u64> = serde_json::from_str(t).ok()?;
    Some(counts.into_iter().collect())
}

/// What `serde_json::to_string_pretty` writes for a map from texts to `u64`.
pub uninterp spec fn counts_text(c: Map<Seq<char>, u64>) -> Seq<char>;

/// Calls `serde_json::to_string_pretty` on a `BTreeMap<String, u64>`: its text is a function of the
/// map, named `counts_text`, and the same map is read back out of it.
#[verifier::external_body]
fn text_of_counts(c: Vec<(String, u64)>) -> (r: String)
    ensures
        r@ == counts_text(listed_counts(c@)),
        counts_of_text(r@) == Some(listed_counts(c@)),
{
    let counts: std::collections::BTreeMap<String, u64> = c.into_iter().collect();
    serde_json::to_string_pretty(&counts).unwrap_or_default()
}

/// The counts that a file holds; one that is not there or not readable holds none.
pub open spec fn counts_in(file: Option<Seq<char>>) -> Map<Seq<char>, u64> {
    match file {
        None => Map::empty(),
        Some(t) => match counts_of_text(t) {
            Some(c) => c,
            None => Map::empty(),
        },
    }
}

/// How often a skill was used.
pub open spec fn count_at(c: Map<Seq<char>, u64>, name: Seq<char>) -> u64 {
    if c.contains_key(name) {
        c[name]
    } else {
        0
    }
}

/// How often skills were used, going by the file that counts it.
pub fn usage_counts(file: Option<&str>) -> (r: Table<u64>)
    ensures
        r@ == counts_in(file_view(file)),
{
    let mut out: Table<u64> = Table::new();
    let listed: Vec<(String, u64)> = match file {
        Some(t) => match counts_from(t) {
            Some(c) => c,
            None => return out,
        },
        None => return out,
    };
    let mut i: usize = 0;
    assert(listed@.take(0) =~= Seq::empty());
    while i < listed.len()
        invariant
            i <= listed@.len(),
            out@ == listed_counts(listed@.take(i as int)),
        decreases listed@.len() - i,
    {
        assert(listed@.take(i + 1).drop_last() =~= listed@.take(i as int));
        out.insert(listed[i].0.as_str(), listed[i].1);
        i = i + 1;
    }
    assert(listed@.take(i as int) =~= listed@);
    out
}

/// The text of the file that counts how often skills were used.
fn write_counts(c: &Table<u64>) -> (r: String)
    ensures
        r@ == counts_text(c@),
        counts_in(Some(r@)) == c@,
{
    let keys: Vec<String> = c.keys();
    let ghost ks = keys.deep_view();
    let mut listed: Vec<(String, u64)> = Vec::new();
    let mut i: usize = 0;
    while i < keys.len()
        invariant
            i <= keys@.len(),
            ks == keys.deep_view(),
            forall|k: Seq<char>| #[trigger] ks.contains(k) == c@.contains_key(k),
            forall|j: int| 0 <= j < i ==> listed_counts(listed@).contains_key(#[trigger] ks[j]),
            forall|k: Seq<char>| #[trigger]
                listed_counts(listed@).contains_key(k) ==> c@.contains_key(k) && listed_counts(
                    listed@,
                )[k] == c@[k],
        decreases keys@.len() - i,
    {
        let key: &str = keys[i].as_str();
        proof {
            assert(ks[i as int] == key@);
            assert(ks.contains(key@));
        }
        if let Some(n) = c.get(key) {
            let k: String = owned(key);
            let ghost before = listed_counts(listed@);
            assert(listed@.push((k, *n)).drop_last() =~= listed@);
            listed.push((k, *n));
            assert(listed_counts(listed@) == before.insert(key@, *n));
        }
        i = i + 1;
    }
    proof {
        assert forall|k: Seq<char>| #[trigger] c@.contains_key(k) implies listed_counts(
            listed@,
        ).contains_key(k) by {
            assert(ks.contains(k));
            let i = choose|i: int| 0 <= i < ks.len() && ks[i] == k;
            assert(listed_counts(listed@).contains_key(ks[i]));
        }
        assert(listed_counts(listed@) =~= c@);
    }
    text_of_counts(listed)
}

/// What the text of the counting file says, where there is one.
pub open spec fn file_view(file: Option<&str>) -> Option<Seq<char>> {
    match file {
        Some(t) => Some(t@),
        None => None,
    }
}

/// The counts after one more use of a skill.
pub open spec fn counted(c: Map<Seq<char>, u64>, name: Seq<char>) -> Map<Seq<char>, u64> {
    c.insert(name, (count_at(c, name) + 1) as u64)
}

/// Counts one more use of a skill and hands back what the counting file is to hold.
pub fn record_usage(file: Option<&str>, name: &str) -> (r: String)
    requires
        count_at(counts_in(file_view(file)), name@) < u64::MAX,
    ensures
        r@ == counts_text(counted(counts_in(file_view(file)), name@)),
        counts_in(Some(r@)) == counted(counts_in(file_view(file)), name@),
{
    let mut c: Table<u64> = usage_counts(file);
    let n: u64 = match c.get(name) {
        Some(n) => *n,
        None => 0,
    };
    c.insert(name, n + 1);
    write_counts(&c)
}

/// Counts one more use of a skill as [`record_usage`] does; nothing comes back where the count
/// cannot grow.
pub fn try_record_usage(file: Option<&str>, name: &str) -> (r: Option<String>)
    ensures
        match r {
            Some(t) => count_at(counts_in(file_view(file)), name@) < u64::MAX && t@ == counts_text(
                counted(counts_in(file_view(file)), name@),
            ) && counts_in(Some(t@)) == counted(counts_in(file_view(file)), name@),
            None => count_at(counts_in(file_view(file)), name@) == u64::MAX,
        },
{
    let c: Table<u64> = usage_counts(file);
    let n: u64 = match c.get(name) {
        Some(n) => *n,
        None => 0,
    };
    if n == u64::MAX {
        return None;
    }
    Some(record_usage(file, name))
}

/// A skill whose front matter names it keeps its name where it is installed.
pub proof fn lemma_install_keeps_name(raw: Seq<char>, src: Seq<char>, dest_root: Seq<char>)
    requires
        fenced(raw) matches Some((front, _)) && front_value(lines(front), "name:"@) is Some,
    ensures
        skill_at(raw, install_path(skill_at(raw, src), dest_root)).name == skill_at(raw, src).name,
{
}

/// The value of a key in the front matter is that of the last line that starts with the key: what
/// stands behind it, without the white space and the quotes around. Without such a line there is
/// none.
pub proof fn lemma_front_value(ls: Seq<Seq<char>>, key: Seq<char>, i: int, v: Seq<char>)
    requires
        forall|j: int|
            0 <= j && i < j < ls.len() ==> !starts_with(trim(#[trigger] ls[j]), key),
    ensures
        0 <= i < ls.len() && trim(ls[i]) == key + v ==> front_value(ls, key) == Some(
            trim_char(trim(v), '"'),
        ),
        i < 0 ==> front_value(ls, key) is None,
    decreases ls.len(),
{
    if ls.len() > 0 {
        if i < ls.len() - 1 {
            let r = ls.drop_last();
            assert forall|j: int| 0 <= j && i < j < r.len() implies !starts_with(
                trim(#[trigger] r[j]),
                key,
            ) by {
                assert(r[j] == ls[j]);
            }
            assert(ls[ls.len() - 1] == ls.last());
            lemma_front_value(r, key, i, v);
        } else {
            lemma_prefix(key, v, trim(ls[i]));
        }
    }
}

/// How a skill file is read: the front matter stands between `---` at its start and the first line
/// that starts with `---`; its `name:` and `description:` are those of the skill, and what stands
/// behind is its body. A file without front matter is all body, and named after the file.
pub proof fn lemma_skill_file(
    front: Seq<char>,
    body: Seq<char>,
    path: Seq<char>,
    stem: Seq<char>,
    plain: Seq<char>,
)
    requires
        forall|j: int|
            0 <= j < front.len() ==> !occurs_at(front + "\n---"@ + body, "\n---"@, j),
        !starts_with(plain, "---"@),
    ensures
        ({
            let k = skill_named("---"@ + front + "\n---"@ + body, path, Some(stem));
            let name = front_value(lines(front), "name:"@);
            let about = front_value(lines(front), "description:"@);
            &&& name is Some ==> k.name == name->0
            &&& name is None ==> k.name == stem
            &&& about is Some ==> k.description == about->0
            &&& about is None ==> k.description.len() == 0
            &&& k.body == trim(body)
            &&& k.path == path
        }),
        ({
            let k = skill_named(plain, path, Some(stem));
            k.name == stem && k.description.len() == 0 && k.body == trim(plain) && k.path == path
        }),
        skill_named(plain, path, None).name == "skill"@,
{
    reveal_strlit("---");
    reveal_strlit("\n---");
    let rest = front + "\n---"@ + body;
    let raw = "---"@ + front + "\n---"@ + body;
    assert(raw =~= "---"@ + rest);
    lemma_prefix("---"@, rest, raw);
    let n = front.len() as int;
    assert(rest.subrange(n, n + 4) =~= "\n---"@);
    assert(occurs_at(rest, "\n---"@, n));
    lemma_find_is(rest, "\n---"@, n);
    assert(rest.take(n) =~= front);
    assert(rest.skip(n + 4) =~= body);
    lemma_trim_of_trim_start(body);
}

proof fn lemma_trim_of_trim_start(s: Seq<char>)
    ensures
        trim(trim_start(s)) == trim(s),
{
    lemma_trim_core(s);
    let t = trim_start(s);
    assert(trim_start(t) == t);
}

/// Which skills are found: those of the first entries, and behind them those of the others. A
/// directory with a `SKILL.md` holds that skill, one without what its own entries hold, a Markdown
/// file is a skill, and below the third level there are none.
pub proof fn lemma_walked(a: Seq<DirEntry>, b: Seq<DirEntry>, e: DirEntry, depth: nat)
    ensures
        walked(a + b, depth) == walked(a, depth) + walked(b, depth),
        depth > 3 ==> walked(a, depth).len() == 0,
        depth <= 3 ==> match e.node {
            DirNode::Dir(inner) => walked(seq![e], depth) == walked(inner@, depth + 1),
            DirNode::SkillDir(Some(raw)) => walked(seq![e], depth) == seq![
                skill_at(raw@, joined(e.path@, "SKILL.md"@)),
            ],
            DirNode::File(Some(raw)) => walked(seq![e], depth) == if extension_text(e.path@) == Some(
                "md"@,
            ) {
                seq![skill_at(raw@, e.path@)]
            } else {
                Seq::<SkillView>::empty()
            },
            _ => walked(seq![e], depth).len() == 0,
        },
    decreases b.len(),
{
    let none = Seq::<DirEntry>::empty();
    assert(seq![e].drop_last() =~= none);
    assert(walked(none, depth) =~= Seq::<SkillView>::empty());
    if depth <= 3 {
        match e.node {
            DirNode::Dir(inner) => {
                assert(walked(seq![e], depth) =~= walked(inner@, depth + 1));
            },
            DirNode::SkillDir(Some(raw)) => {
                assert(walked(seq![e], depth) =~= seq![
                    skill_at(raw@, joined(e.path@, "SKILL.md"@)),
                ]);
            },
            DirNode::File(Some(raw)) => {
                if extension_text(e.path@) == Some("md"@) {
                    assert(walked(seq![e], depth) =~= seq![skill_at(raw@, e.path@)]);
                } else {
                    assert(walked(seq![e], depth) =~= Seq::<SkillView>::empty());
                }
            },
            _ => {},
        }
    }
    if b.len() == 0 {
        assert(a + b =~= a);
        assert(walked(a, depth) + walked(b, depth) =~= walked(a, depth));
    } else if depth <= 3 {
        assert((a + b).drop_last() =~= a + b.drop_last());
        assert((a + b).last() == b.last());
        lemma_walked(a, b.drop_last(), e, depth);
        assert(walked(a + b, depth) =~= walked(a, depth) + walked(b, depth));
    }
}

/// What the model sees of skills: each with its name, its description and its whole body, one behind
/// the other.
pub proof fn lemma_skill_sections(a: Seq<SkillView>, k: SkillView)
    ensures
        skill_sections(a.push(k)) == skill_sections(a) + ("\n### "@ + k.name + "\n"@ + k.description
            + "\n\n"@ + k.body + "\n"@),
        skill_sections(Seq::empty()) == Seq::<char>::empty(),
{
    assert(a.push(k).drop_last() =~= a);
    assert(skill_sections(Seq::<SkillView>::empty()) =~= Seq::<char>::empty());
}

/// One more use of a skill adds one to its count, and leaves those of the others alone.
pub proof fn lemma_counted(c: Map<Seq<char>, u64>, name: Seq<char>, other: Seq<char>)
    requires
        count_at(c, name) < u64::MAX,
        other != name,
    ensures
        counted(c, name).contains_key(name),
        c.contains_key(name) ==> counted(c, name)[name] == c[name] + 1,
        !c.contains_key(name) ==> counted(c, name)[name] == 1,
        counted(c, name).contains_key(other) == c.contains_key(other),
        c.contains_key(other) ==> counted(c, name)[other] == c[other],
{
}

/// Where skills are kept, and where one is installed to.
pub proof fn lemma_skill_places(env: Map<Seq<char>, Seq<char>>, k: SkillView, root: Seq<char>)
    ensures
        env.contains_key("HOME"@) && env["HOME"@].len() > 0 && env["HOME"@].last() != '/'
            ==> skills_dir(env) == env["HOME"@] + "/.pirs/skills"@,
        root.len() > 0 && root.last() != '/' && k.name.len() > 0 && k.name[0] != '/' && k.name.last()
            != '/' ==> install_path(k, root) == root + "/"@ + k.name + "/SKILL.md"@,
{
    reveal_strlit(".pirs");
    reveal_strlit("skills");
    reveal_strlit("/.pirs/skills");
    reveal_strlit("/");
    reveal_strlit("SKILL.md");
    reveal_strlit("/SKILL.md");
    if env.contains_key("HOME"@) && env["HOME"@].len() > 0 && env["HOME"@].last() != '/' {
        let home = env["HOME"@];
        let a = home.push('/') + ".pirs"@;
        assert(a.last() == 's');
        assert(a.push('/') + "skills"@ =~= home + "/.pirs/skills"@);
    }
    if root.len() > 0 && root.last() != '/' && k.name.len() > 0 && k.name[0] != '/' && k.name.last()
        != '/' {
        let d = root.push('/') + k.name;
        assert(d.last() == k.name.last());
        assert(d.push('/') + "SKILL.md"@ =~= root + "/"@ + k.name + "/SKILL.md"@);
    }
}

proof fn lemma_with_name_holds(s: Seq<SkillView>, i: int)
    requires
        0 <= i < s.len(),
    ensures
        with_name(s, s[i].name).contains(s[i]),
    decreases s.len(),
{
    let w = with_name(s, s[i].name);
    if i == s.len() - 1 {
        assert(w[w.len() - 1] == s[i]);
    } else {
        let d = s.drop_last();
        assert(d[i] == s[i]);
        lemma_with_name_holds(d, i);
        let v = with_name(d, s[i].name);
        let k = choose|k: int| 0 <= k < v.len() && v[k] == s[i];
        assert(w[k] == s[i]);
    }
}

proof fn lemma_with_name_from(s: Seq<SkillView>, name: Seq<char>, k: SkillView)
    requires
        with_name(s, name).contains(k),
    ensures
        s.contains(k),
    decreases s.len(),
{
    if s.len() > 0 {
        let d = s.drop_last();
        let w = with_name(s, name);
        let v = with_name(d, name);
        let i = choose|i: int| 0 <= i < w.len() && w[i] == k;
        if s.last().name == name && i == w.len() - 1 {
            assert(s[s.len() - 1] == k);
        } else {
            assert(v[i] == k);
            lemma_with_name_from(d, name, k);
            let j = choose|j: int| 0 <= j < d.len() && d[j] == k;
            assert(s[j] == k);
        }
    }
}

/// Sorting skills loses none and adds none, and puts them into the order of their names.
pub proof fn lemma_sorted_skills(r: Seq<SkillView>, s: Seq<SkillView>, i: int, j: int)
    requires
        is_sorted_from(r, s),
        0 <= i < j < s.len(),
    ensures
        r.len() == s.len(),
        r.contains(s[i]) && r.contains(s[j]),
        s.contains(r[i]) && s.contains(r[j]),
        text_le(r[i].name, r[j].name),
{
    assert(with_name(r, s[i].name) == with_name(s, s[i].name));
    assert(with_name(r, s[j].name) == with_name(s, s[j].name));
    assert(with_name(r, r[i].name) == with_name(s, r[i].name));
    assert(with_name(r, r[j].name) == with_name(s, r[j].name));
    lemma_with_name_holds(s, i);
    lemma_with_name_holds(s, j);
    lemma_with_name_holds(r, i);
    lemma_with_name_holds(r, j);
    lemma_with_name_from(r, s[i].name, s[i]);
    lemma_with_name_from(r, s[j].name, s[j]);
    lemma_with_name_from(s, r[i].name, r[i]);
    lemma_with_name_from(s, r[j].name, r[j]);
}

/// A counting file that is missing or cannot be read counts nothing.
pub proof fn lemma_counts_in(t: Seq<char>)
    ensures
        counts_in(None) == Map::<Seq<char>, u64>::empty(),
        counts_of_text(t) is None ==> counts_in(Some(t)) == Map::<Seq<char>, u64>::empty(),
        counts_of_text(t) is Some ==> counts_in(Some(t)) == counts_of_text(t)->0,
{
}

} // verus!
