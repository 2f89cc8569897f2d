//! Search for code by meaning: what the tool does with the answers of the embedding service and of
//! the store, and what it replies.

use vstd::prelude::*;

use crate::graph::embed_plan::EmbedPlan;
use crate::text::chars::owned;
use crate::text::number::{decimal, usize_text};
use crate::text::path::{is_plain_path, lemma_rest_below, rest_below};
use crate::tools::output::{just_text, ToolOutput};

verus! {

/// How many characters of a symbol's source are embedded where nothing else is asked for.
pub const DEFAULT_MAX_CHUNK_CHARS: usize = 2000;

/// How many results are shown where nothing else is asked for.
pub const DEFAULT_LIMIT: usize = 8;

/// How many results are shown at most.
pub const MAX_LIMIT: usize = 50;

/// How many results to show.
pub open spec fn limit_for(asked: Option<usize>) -> usize {
    match asked {
        None => DEFAULT_LIMIT,
        Some(n) => if n < 1 {
            1
        } else if n > MAX_LIMIT {
            MAX_LIMIT
        } else {
            n
        },
    }
}

/// What came of the last thing that the tool asked for.
pub enum SearchEvent {
    /// The service did not embed the query.
    QueryRefused { error: String },
    /// The service sent this many vectors for the query.
    QueryEmbedded { vectors: usize },
    /// The index could not be brought up to date.
    IndexRefused { error: String },
    /// The index is up to date, with this many new symbols in it.
    Indexed { count: usize },
    /// The store found this many candidates.
    Found { count: usize, indexed: usize },
}

/// What the tool does next.
pub enum SearchStep {
    /// Bring the index up to date.
    UpdateIndex,
    /// Ask the store for the nearest symbols.
    Search { candidates: usize },
    /// Rank the candidates and show the best.
    Rank { limit: usize },
    /// Reply.
    Reply { output: ToolOutput },
}

/// What is said where the service is out of reach.
pub open spec fn unavailable_text(error: Seq<char>) -> Seq<char> {
    "semantic_search unavailable (embedding service error: "@ + error
        + "). Fall back to grep or code_map for this query."@
}

/// What is said where the index could not be brought up to date.
pub open spec fn indexing_failed_text(error: Seq<char>) -> Seq<char> {
    "semantic_search: indexing failed ("@ + error + "). Use grep or code_map instead."@
}

/// What is said where nothing was found.
pub open spec fn nothing_found_text(indexed: usize) -> Seq<char> {
    "semantic_search: no embedded symbols matched (index has 0 vectors"@ + (if indexed > 0 {
        ", "@ + decimal(indexed as nat) + " just embedded"@
    } else {
        Seq::empty()
    }) + "). The repo may have no supported source files."@
}

/// What is said where the service sent no vector for the query.
pub open spec fn no_vector_text() -> Seq<char> {
    "semantic_search: embedder returned no vector for the query."@
}

/// Whether a step is a reply with a text.
pub open spec fn replies(step: SearchStep, text: Seq<char>) -> bool {
    step matches SearchStep::Reply { output } && output@ == just_text(text)
}

/// Whether `step` is what the tool does after `event`. A service or an index that fails ends the
/// search with a reply that points to other tools, never with an error.
pub open spec fn step_is(asked: Option<usize>, event: SearchEvent, step: SearchStep) -> bool {
    match event {
        SearchEvent::QueryRefused { error } => replies(step, unavailable_text(error@)),
        SearchEvent::QueryEmbedded { vectors } => if vectors == 0 {
            replies(step, no_vector_text())
        } else {
            step is UpdateIndex
        },
        SearchEvent::IndexRefused { error } => replies(step, indexing_failed_text(error@)),
        SearchEvent::Indexed { .. } => step matches SearchStep::Search { candidates } && candidates
            == 3 * limit_for(asked),
        SearchEvent::Found { count, indexed } => if count == 0 {
            replies(step, nothing_found_text(indexed))
        } else {
            step matches SearchStep::Rank { limit } && limit == limit_for(asked)
        },
    }
}

/// A symbol as it is shown: where it stands, how similar it is, as a number with two decimals, and
/// how many callers it has.
pub struct RankedHit {
    pub name: String,
    pub file: String,
    pub line: usize,
    pub similarity: String,
    pub callers: usize,
}

/// What `Path::strip_prefix` leaves of a path below a root.
pub uninterp spec fn path_below(path: Seq<char>, root: Seq<char>) -> Option<Seq<char>>;

/// Calls `Path::strip_prefix`: what is left of a path below a root, or nothing where it does not
/// start with it, is a function of the two, named `path_below`. It goes by whole names: of plain
/// paths, one is below a root that it is, or that it starts with and has a `/` behind.
#[verifier::external_body]
fn below(path: &str, root: &str) -> (r: Option<String>)
    ensures
        r.deep_view() == path_below(path@, root@),
        is_plain_path(path@) && is_plain_path(root@) ==> r.deep_view() == rest_below(path@, root@),
{
    match std::path::Path::new(path).strip_prefix(root) {
        Ok(rel) => Some(rel.to_string_lossy().into_owned()),
        Err(_) => None,
    }
}

/// A path as it is shown: below the root where it is there.
pub open spec fn shown_path(path: Seq<char>, below: Option<Seq<char>>) -> Seq<char> {
    match below {
        Some(rel) => rel,
        None => path,
    }
}

/// One line of the results.
pub open spec fn hit_line(number: nat, h: RankedHit, path: Seq<char>) -> Seq<char> {
    decimal(number) + ". "@ + h.name@ + " ("@ + path + ":"@ + decimal(h.line as nat) + ")  [sim "@
        + h.similarity@ + ", "@ + decimal(h.callers as nat) + " callers]\n"@
}

/// The lines of the results.
pub open spec fn hit_lines(hits: Seq<RankedHit>, paths: Seq<Seq<char>>) -> Seq<char>
    decreases hits.len(),
{
    if hits.len() == 0 {
        Seq::empty()
    } else {
        hit_lines(hits.drop_last(), paths) + hit_line(
            hits.len(),
            hits.last(),
            paths[hits.len() - 1],
        )
    }
}

/// The reply with the results, `paths` giving for each the path to show.
pub open spec fn results_text(
    query: Seq<char>,
    indexed: usize,
    hits: Seq<RankedHit>,
    paths: Seq<Seq<char>>,
) -> Seq<char> {
    (if indexed > 0 {
        "(embedded "@ + decimal(indexed as nat) + " new symbols)\n"@
    } else {
        Seq::empty()
    }) + "Top "@ + decimal(hits.len()) + " for \""@ + query + "\":\n"@ + hit_lines(hits, paths)
}

/// The paths to show for results.
pub open spec fn shown_paths(hits: Seq<RankedHit>, root: Seq<char>) -> Seq<Seq<char>> {
    hits.map_values(|h: RankedHit| shown_path(h.file@, path_below(h.file@, root)))
}

/// The reply with the results, `paths` giving for each the path to show.
pub fn render_results(
    query: &str,
    indexed: usize,
    hits: &[RankedHit],
    paths: &[String],
) -> (r: String)
    requires
        hits@.len() == paths@.len(),
    ensures
        r@ == results_text(query@, indexed, hits@, paths.deep_view()),
{
    let mut out: String = String::new();
    if indexed > 0 {
        out.append("(embedded ");
        out.append(usize_text(indexed).as_str());
        out.append(" new symbols)\n");
    }
    out.append("Top ");
    out.append(usize_text(hits.len()).as_str());
    out.append(" for \"");
    out.append(query);
    out.append("\":\n");
    let ghost head = out@;
    let ghost shown = paths.deep_view();
    let n: usize = hits.len();
    let mut i: usize = 0;
    assert(head =~= head + hit_lines(hits@.take(0), shown));
    while i < n
        invariant
            i <= n,
            n == hits@.len(),
            n == paths@.len(),
            shown == paths.deep_view(),
            out@ == head + hit_lines(hits@.take(i as int), shown),
        decreases n - i,
    {
        let h: &RankedHit = &hits[i];
        let ghost before = out@;
        out.append(usize_text(i + 1).as_str());
        out.append(". ");
        out.append(h.name.as_str());
        out.append(" (");
        out.append(paths[i].as_str());
        out.append(":");
        out.append(usize_text(h.line).as_str());
        out.append(")  [sim ");
        out.append(h.similarity.as_str());
        out.append(", ");
        out.append(usize_text(h.callers).as_str());
        out.append(" callers]\n");
        proof {
            assert(shown[i as int] == paths@[i as int]@);
            assert(out@ =~= before + hit_line((i + 1) as nat, *h, shown[i as int]));
            assert(hits@.take(i + 1).drop_last() =~= hits@.take(i as int));
            assert(hits@.take(i + 1).last() == *h);
            assert(out@ =~= head + hit_lines(hits@.take(i + 1), shown));
        }
        i = i + 1;
    }
    assert(hits@.take(n as int) =~= hits@);
    out
}

/// Whether candidate `a` is shown before candidate `b`: its key is higher, or it is the same and
/// `a` was found first.
pub open spec fn before(keys: Seq<u32>, a: int, b: int) -> bool {
    keys[a] > keys[b] || (keys[a] == keys[b] && a < b)
}

/// Whether `r` is the first `limit` of the candidates below `n`, in the order in which they are
/// shown.
pub open spec fn is_top(keys: Seq<u32>, n: int, limit: nat, r: Seq<usize>) -> bool {
    &&& r.len() == if n < limit {
        n
    } else {
        limit as int
    }
    &&& forall|i: int| 0 <= i < r.len() ==> #[trigger] r[i] < n
    &&& forall|i: int, j: int|
        0 <= i < j < r.len() ==> before(keys, #[trigger] r[i] as int, #[trigger] r[j] as int)
    &&& forall|e: int, i: int|
        0 <= e < n && !r.contains(e as usize) && 0 <= i < r.len() ==> #[trigger] before(
            keys,
            r[i] as int,
            e,
        )
    &&& n <= limit ==> forall|e: int| 0 <= e < n ==> #[trigger] r.contains(e as usize)
}

proof fn lemma_insert_top(keys: Seq<u32>, n: int, limit: nat, r: Seq<usize>, pos: int)
    requires
        0 <= n < keys.len() <= usize::MAX,
        is_top(keys, n, limit, r),
        0 <= pos <= r.len(),
        forall|i: int| 0 <= i < pos ==> keys[#[trigger] r[i] as int] >= keys[n],
        forall|i: int| pos <= i < r.len() ==> keys[#[trigger] r[i] as int] < keys[n],
    ensures
        ({
            let q = r.insert(pos, n as usize);
            is_top(
                keys,
                n + 1,
                limit,
                if q.len() > limit {
                    q.drop_last()
                } else {
                    q
                },
            )
        }),
{
    let q = r.insert(pos, n as usize);
    let t = if q.len() > limit {
        q.drop_last()
    } else {
        q
    };
    assert forall|i: int| 0 <= i < q.len() implies q[i] == (if i < pos {
        r[i]
    } else if i == pos {
        n as usize
    } else {
        r[i - 1]
    }) by {}
    assert forall|i: int, j: int| 0 <= i < j < q.len() implies before(
        keys,
        #[trigger] q[i] as int,
        #[trigger] q[j] as int,
    ) by {
        let a = if i < pos {
            i
        } else {
            i - 1
        };
        let b = if j < pos {
            j
        } else {
            j - 1
        };
        if i != pos && j != pos {
            assert(before(keys, r[a] as int, r[b] as int));
        }
    }
    assert forall|e: int, i: int|
        0 <= e < n + 1 && !t.contains(e as usize) && 0 <= i < t.len() implies #[trigger] before(
        keys,
        t[i] as int,
        e,
    ) by {
        assert(t[i] == q[i]);
        if q.contains(e as usize) {
            let j = choose|j: int| 0 <= j < q.len() && q[j] == e as usize;
            if j < t.len() {
                assert(t[j] == e as usize);
            }
            assert(before(keys, q[i] as int, q[j] as int));
        } else {
            assert(q[pos] == n as usize);
            assert(e != n);
            if r.contains(e as usize) {
                let j = choose|j: int| 0 <= j < r.len() && r[j] == e as usize;
                if j < pos {
                    assert(q[j] == r[j]);
                } else {
                    assert(q[j + 1] == r[j]);
                }
            }
            if i < pos {
                assert(before(keys, r[i] as int, e));
            } else if i > pos {
                assert(before(keys, r[i - 1] as int, e));
            } else {
                assert(before(keys, r[pos] as int, e));
            }
        }
    }
    if n + 1 <= limit {
        assert forall|e: int| 0 <= e < n + 1 implies #[trigger] t.contains(e as usize) by {
            if e == n {
                assert(t[pos] == n as usize);
            } else {
                assert(r.contains(e as usize));
                let j = choose|j: int| 0 <= j < r.len() && r[j] == e as usize;
                if j < pos {
                    assert(t[j] == r[j]);
                } else {
                    assert(t[j + 1] == r[j]);
                }
            }
        }
    }
}

/// The places of the best `limit` candidates, by falling key; of two with the same key the one that
/// was found first comes first.
pub fn rerank(keys: &[u32], limit: usize) -> (r: Vec<usize>)
    ensures
        is_top(keys@, keys@.len() as int, limit as nat, r@),
{
    let n: usize = keys.len();
    let mut out: Vec<usize> = Vec::new();
    let mut i: usize = 0;
    while i < n
        invariant
            i <= n,
            n == keys@.len(),
            is_top(keys@, i as int, limit as nat, out@),
        decreases n - i,
    {
        let mut pos: usize = out.len();
        while pos > 0 && keys[out[pos - 1]] < keys[i]
            invariant
                i < n,
                n == keys@.len(),
                pos <= out@.len(),
                is_top(keys@, i as int, limit as nat, out@),
                forall|j: int|
                    pos <= j < out@.len() ==> keys@[#[trigger] out@[j] as int] < keys@[i as int],
            decreases pos,
        {
            pos = pos - 1;
        }
        proof {
            assert forall|j: int| 0 <= j < pos implies keys@[#[trigger] out@[j] as int]
                >= keys@[i as int] by {
                if j < pos - 1 {
                    assert(before(keys@, out@[j] as int, out@[pos - 1] as int));
                }
            }
            lemma_insert_top(keys@, i as int, limit as nat, out@, pos as int);
        }
        out.insert(pos, i);
        if out.len() > limit {
            let _ = out.pop();
        }
        i = i + 1;
    }
    out
}

/// The tool: the root of the code, and how many characters of a symbol are embedded.
pub struct SemanticSearchTool {
    pub root: String,
    pub max_chars: usize,
}

impl SemanticSearchTool {
    /// A tool on the code below `root`.
    pub fn new(root: String, max_chars: Option<usize>) -> (r: SemanticSearchTool)
        ensures
            r.root@ == root@,
            r.max_chars == (match max_chars {
                Some(n) => n,
                None => DEFAULT_MAX_CHUNK_CHARS,
            }),
    {
        let max_chars: usize = match max_chars {
            Some(n) => n,
            None => DEFAULT_MAX_CHUNK_CHARS,
        };
        SemanticSearchTool { root, max_chars }
    }

    /// What the tool is called.
    pub fn name(&self) -> (r: &'static str)
        ensures
            r@ == "semantic_search"@,
    {
        "semantic_search"
    }

    /// What the tool does, as the model is told.
    pub fn description(&self) -> (r: &'static str)
        ensures
            r@
                == "Find code by MEANING, not keywords: describe what you're looking for in natural language (\"where do we validate a session token\") and get the most relevant symbols by embedding similarity, reranked by graph centrality. Use it to explore an unfamiliar area before grep. Returns file:line locations to read."@,
    {
        "Find code by MEANING, not keywords: describe what you're looking for in natural language (\"where do we validate a session token\") and get the most relevant symbols by embedding similarity, reranked by graph centrality. Use it to explore an unfamiliar area before grep. Returns file:line locations to read."
    }

    /// What the system prompt says of the tool.
    pub fn prompt_snippet(&self) -> (r: Option<&'static str>)
        ensures
            r matches Some(t) && t@ == "semantic_search: find code by natural-language meaning (embeddings), then read the hits"@,
    {
        Some("semantic_search: find code by natural-language meaning (embeddings), then read the hits")
    }

    /// The plan by which the symbols without a vector are embedded.
    pub fn embed_pending<V>(&self, texts: Vec<String>) -> (r: EmbedPlan<V>)
        ensures
            r@.texts == texts.deep_view(),
            r@.at == 0,
            r@.single is None,
            r@.kept.len() == 0,
            r@.vectors.len() == 0,
            r@.wf(),
    {
        EmbedPlan::new(texts)
    }

    /// What the tool does after `event`, where `asked` results were asked for.
    pub fn execute(&self, asked: Option<usize>, event: SearchEvent) -> (r: SearchStep)
        ensures
            step_is(asked, event, r),
    {
        let limit: usize = match asked {
            None => DEFAULT_LIMIT,
            Some(n) => if n < 1 {
                1
            } else if n > MAX_LIMIT {
                MAX_LIMIT
            } else {
                n
            },
        };
        match event {
            SearchEvent::QueryRefused { error } => {
                let mut t: String = owned(
                    "semantic_search unavailable (embedding service error: ",
                );
                t.append(error.as_str());
                t.append("). Fall back to grep or code_map for this query.");
                SearchStep::Reply { output: ToolOutput::text(t) }
            },
            SearchEvent::QueryEmbedded { vectors } => if vectors == 0 {
                SearchStep::Reply {
                    output: ToolOutput::text(
                        owned("semantic_search: embedder returned no vector for the query."),
                    ),
                }
            } else {
                SearchStep::UpdateIndex
            },
            SearchEvent::IndexRefused { error } => {
                let mut t: String = owned("semantic_search: indexing failed (");
                t.append(error.as_str());
                t.append("). Use grep or code_map instead.");
                SearchStep::Reply { output: ToolOutput::text(t) }
            },
            SearchEvent::Indexed { count } => SearchStep::Search { candidates: limit * 3 },
            SearchEvent::Found { count, indexed } => if count == 0 {
                let mut t: String = owned(
                    "semantic_search: no embedded symbols matched (index has 0 vectors",
                );
                if indexed > 0 {
                    t.append(", ");
                    t.append(usize_text(indexed).as_str());
                    t.append(" just embedded");
                }
                t.append("). The repo may have no supported source files.");
                assert(t@ =~= nothing_found_text(indexed));
                SearchStep::Reply { output: ToolOutput::text(t) }
            } else {
                SearchStep::Rank { limit }
            },
        }
    }

    /// The reply with the ranked results: their paths are shown below the root.
    pub fn report(&self, query: &str, indexed: usize, ranked: &[RankedHit]) -> (r: ToolOutput)
        ensures
            r@ == just_text(
                results_text(query@, indexed, ranked@, shown_paths(ranked@, self.root@)),
            ),
            is_plain_path(self.root@) ==> forall|i: int|
                0 <= i < ranked@.len() && is_plain_path(ranked@[i].file@) ==> (
                #[trigger] shown_paths(ranked@, self.root@)[i]) == shown_path(
                    ranked@[i].file@,
                    rest_below(ranked@[i].file@, self.root@),
                ),
    {
        let ghost want = shown_paths(ranked@, self.root@);
        let mut paths: Vec<String> = Vec::new();
        let n: usize = ranked.len();
        let mut i: usize = 0;
        assert(paths.deep_view() =~= want.take(0));
        while i < n
            invariant
                i <= n,
                n == ranked@.len(),
                want == shown_paths(ranked@, self.root@),
                paths@.len() == i,
                paths.deep_view() == want.take(i as int),
                is_plain_path(self.root@) ==> forall|j: int|
                    0 <= j < i && is_plain_path(ranked@[j].file@) ==> (#[trigger] want[j])
                        == shown_path(
                        ranked@[j].file@,
                        rest_below(ranked@[j].file@, self.root@),
                    ),
            decreases n - i,
        {
            let file: &str = ranked[i].file.as_str();
            let ghost before = paths.deep_view();
            let path: String = match below(file, self.root.as_str()) {
                Some(rel) => rel,
                None => owned(file),
            };
            assert(want[i as int] == path@);
            paths.push(path);
            assert(paths.deep_view() =~= before.push(want[i as int]));
            assert(want.take(i + 1) =~= want.take(i as int).push(want[i as int]));
            i = i + 1;
        }
        assert(want.take(n as int) =~= want);
        ToolOutput::text(render_results(query, indexed, ranked, &paths))
    }
}

/// How many results are shown: as many as were asked for, from one up to fifty; eight where nothing
/// was said.
pub proof fn lemma_result_limit(n: usize)
    ensures
        limit_for(None) == 8,
        1 <= n <= 50 ==> limit_for(Some(n)) == n,
        n == 0 ==> limit_for(Some(n)) == 1,
        n > 50 ==> limit_for(Some(n)) == 50,
        DEFAULT_MAX_CHUNK_CHARS == 2000,
{
}

/// How a search goes: the query is embedded first, then the index is brought up to date, then three
/// times as many candidates are fetched as are shown, and what was found is ranked. Where the
/// service or the index fails, where no vector came, or where nothing was found, the reply says so,
/// and the search is over.
pub proof fn lemma_search_steps(
    asked: Option<usize>,
    error: String,
    vectors: usize,
    count: usize,
    indexed: usize,
    step: SearchStep,
)
    ensures
        step_is(asked, SearchEvent::QueryEmbedded { vectors }, step) && vectors > 0
            ==> step is UpdateIndex,
        step_is(asked, SearchEvent::QueryEmbedded { vectors }, step) && vectors == 0 ==> step is Reply
            && step->output@.text == "semantic_search: embedder returned no vector for the query."@,
        step_is(asked, SearchEvent::Indexed { count }, step) ==> step is Search && step->candidates
            == 3 * limit_for(asked),
        step_is(asked, SearchEvent::Found { count, indexed }, step) && count > 0 ==> step is Rank
            && step->limit == limit_for(asked),
        step_is(asked, SearchEvent::Found { count, indexed }, step) && count == 0 ==> step is Reply,
        step_is(asked, SearchEvent::QueryRefused { error }, step) ==> step is Reply
            && step->output@.text == "semantic_search unavailable (embedding service error: "@
            + error@ + "). Fall back to grep or code_map for this query."@,
        step_is(asked, SearchEvent::IndexRefused { error }, step) ==> step is Reply
            && step->output@.text == "semantic_search: indexing failed ("@ + error@
            + "). Use grep or code_map instead."@,
{
}

/// The results are shown one below the other, numbered from one: each with its name, its path and
/// line, how similar it is, and how many callers it has.
pub proof fn lemma_hit_lines(hits: Seq<RankedHit>, h: RankedHit, paths: Seq<Seq<char>>)
    ensures
        hit_lines(Seq::empty(), paths) == Seq::<char>::empty(),
        hit_lines(hits.push(h), paths) == hit_lines(hits, paths) + (decimal(hits.len() + 1) + ". "@
            + h.name@ + " ("@ + paths[hits.len() as int] + ":"@ + decimal(h.line as nat) + ")  [sim "@
            + h.similarity@ + ", "@ + decimal(h.callers as nat) + " callers]\n"@),
{
    assert(hits.push(h).drop_last() =~= hits);
    assert(hit_lines(Seq::<RankedHit>::empty(), paths) =~= Seq::<char>::empty());
}

/// A path is shown as what stands behind the root, where it is below it, and whole otherwise.
pub proof fn lemma_shown_path(root: Seq<char>, rel: Seq<char>, path: Seq<char>)
    ensures
        shown_path(root + seq!['/'] + rel, rest_below(root + seq!['/'] + rel, root)) == rel,
        rest_below(path, root) is None ==> shown_path(path, rest_below(path, root)) == path,
{
    lemma_rest_below(root, rel, path);
}

/// The ranked results are those with the highest keys: none that is left out has a higher key than
/// one that is shown, none is shown twice, and keys never rise from one result to the next.
pub proof fn lemma_ranking(keys: Seq<u32>, limit: nat, r: Seq<usize>, i: int, j: int, e: int)
    requires
        is_top(keys, keys.len() as int, limit, r),
        keys.len() <= usize::MAX,
        0 <= i < j < r.len(),
        0 <= e < keys.len(),
        !r.contains(e as usize),
    ensures
        r[i] != r[j],
        keys[r[i] as int] >= keys[r[j] as int],
        keys[r[i] as int] == keys[r[j] as int] ==> r[i] < r[j],
        keys[r[i] as int] >= keys[e],
        r.len() == limit,
{
    assert(before(keys, r[i] as int, r[j] as int));
    assert(before(keys, r[i] as int, e));
}

/// What is said where nothing was found, and how the results are introduced: how many symbols were
/// embedded just now is said where there were any.
pub proof fn lemma_search_texts(
    query: Seq<char>,
    indexed: usize,
    hits: Seq<RankedHit>,
    paths: Seq<Seq<char>>,
)
    ensures
        nothing_found_text(0)
            == "semantic_search: no embedded symbols matched (index has 0 vectors"@ + Seq::<
            char,
        >::empty() + "). The repo may have no supported source files."@,
        indexed > 0 ==> nothing_found_text(indexed)
            == "semantic_search: no embedded symbols matched (index has 0 vectors"@ + (", "@ + decimal(
            indexed as nat,
        ) + " just embedded"@) + "). The repo may have no supported source files."@,
        indexed > 0 ==> results_text(query, indexed, hits, paths) == "(embedded "@ + decimal(
            indexed as nat,
        ) + " new symbols)\n"@ + "Top "@ + decimal(hits.len()) + " for \""@ + query + "\":\n"@
            + hit_lines(hits, paths),
        results_text(query, 0, hits, paths) == Seq::<char>::empty() + "Top "@ + decimal(hits.len())
            + " for \""@ + query + "\":\n"@ + hit_lines(hits, paths),
{
}

} // verus!
