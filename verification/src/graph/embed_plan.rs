//! Which texts to send to an embedding service next, and what to make of its answers.

use vstd::prelude::*;

use crate::text::chars::owned;
use crate::text::search::head_chars;

verus! {

/// How many texts go into one request.
pub const EMBED_BATCH: usize = 64;

/// How often a single text is sent.
pub const EMBED_TRIES: u8 = 6;

/// A text of no more characters than this is not cut further.
pub const SMALLEST_CUT: usize = 64;

/// A text that is sent by itself, because the batch it was in was refused.
struct Single {
    end: usize,
    text: String,
    tries: u8,
}

/// A text that is sent by itself: where its batch ends, what is left of it, and how often it may
/// still be sent.
pub struct SingleView {
    pub end: int,
    pub text: Seq<char>,
    pub tries: int,
}

/// The texts to embed, how far they are done, and what came of it so far.
pub struct EmbedPlan<V> {
    texts: Vec<String>,
    at: usize,
    single: Option<Single>,
    kept: Vec<usize>,
    vectors: Vec<V>,
}

/// The texts to embed, how many of them are done, the one that is sent by itself, and the texts
/// that were embedded, by their place, with their vectors.
pub struct PlanView<V> {
    pub texts: Seq<Seq<char>>,
    pub at: int,
    pub single: Option<SingleView>,
    pub kept: Seq<usize>,
    pub vectors: Seq<V>,
}

impl<V> View for EmbedPlan<V> {
    type V = PlanView<V>;

    closed spec fn view(&self) -> PlanView<V> {
        PlanView {
            texts: self.texts.deep_view(),
            at: self.at as int,
            single: match self.single {
                Some(one) => Some(
                    SingleView { end: one.end as int, text: one.text@, tries: one.tries as int },
                ),
                None => None,
            },
            kept: self.kept@,
            vectors: self.vectors@,
        }
    }
}

/// Where the batch that starts at `at` ends.
pub open spec fn batch_end(total: int, at: int) -> int {
    if at + EMBED_BATCH < total {
        at + EMBED_BATCH
    } else {
        total
    }
}

impl<V> PlanView<V> {
    /// The texts to send next; none once all are done.
    pub open spec fn request(self) -> Option<Seq<Seq<char>>> {
        match self.single {
            Some(one) => Some(seq![one.text]),
            None => if self.at < self.texts.len() {
                Some(self.texts.subrange(self.at, batch_end(self.texts.len() as int, self.at)))
            } else {
                None
            },
        }
    }

    /// The text at `at` is done: the next of its batch is sent by itself too.
    pub open spec fn past_single(self, end: int) -> PlanView<V> {
        PlanView {
            at: self.at + 1,
            single: if self.at + 1 < end {
                Some(
                    SingleView { end, text: self.texts[self.at + 1], tries: EMBED_TRIES as int },
                )
            } else {
                None
            },
            ..self
        }
    }

    /// The plan after an answer: the vectors that came back, or none where the request was
    /// refused. A refused batch is sent text by text; a refused text is halved and sent again,
    /// until it is too small or was sent too often.
    pub open spec fn after(self, answer: Option<Seq<V>>) -> PlanView<V> {
        match self.single {
            None => {
                let end = batch_end(self.texts.len() as int, self.at);
                match answer {
                    Some(vs) => PlanView {
                        at: end,
                        kept: self.kept + Seq::new(vs.len(), |j: int| (self.at + j) as usize),
                        vectors: self.vectors + vs,
                        ..self
                    },
                    None => PlanView {
                        single: Some(
                            SingleView { end, text: self.texts[self.at], tries: EMBED_TRIES as int },
                        ),
                        ..self
                    },
                }
            },
            Some(one) => match answer {
                Some(vs) => if vs.len() > 0 {
                    PlanView {
                        kept: self.kept.push(self.at as usize),
                        vectors: self.vectors.push(vs.last()),
                        ..self
                    }.past_single(one.end)
                } else {
                    self.past_single(one.end)
                },
                None => if one.text.len() <= SMALLEST_CUT || one.tries <= 1 {
                    self.past_single(one.end)
                } else {
                    PlanView {
                        single: Some(
                            SingleView {
                                end: one.end,
                                text: one.text.take(one.text.len() as int / 2),
                                tries: one.tries - 1,
                            },
                        ),
                        ..self
                    }
                },
            },
        }
    }

    /// Whether the numbers of a plan fit together.
    pub open spec fn wf(self) -> bool {
        &&& 0 <= self.at <= self.texts.len() <= usize::MAX
        &&& self.kept.len() == self.vectors.len()
        &&& forall|i: int| 0 <= i < self.kept.len() ==> #[trigger] self.kept[i] < self.texts.len()
        &&& self.single matches Some(one) ==> self.at < one.end <= self.texts.len() && 1 <= one.tries
            <= EMBED_TRIES
    }

    /// Whether an answer can be one to the request: a batch brings no more vectors than there are
    /// texts from its start on.
    pub open spec fn takes(self, answer: Option<Seq<V>>) -> bool {
        self.single is None ==> (answer matches Some(vs) ==> self.at + vs.len()
            <= self.texts.len())
    }
}

impl<V> EmbedPlan<V> {
    #[verifier::type_invariant]
    spec fn inv(self) -> bool {
        self@.wf()
    }

    /// A plan for `texts`, with nothing done.
    pub fn new(texts: Vec<String>) -> (r: EmbedPlan<V>)
        ensures
            r@ == (PlanView::<V> {
                texts: texts.deep_view(),
                at: 0,
                single: None,
                kept: Seq::empty(),
                vectors: Seq::empty(),
            }),
            r@.wf(),
    {
        let n: usize = texts.len();
        assert(texts.deep_view().len() == n);
        EmbedPlan { texts, at: 0, single: None, kept: Vec::new(), vectors: Vec::new() }
    }

    /// The texts to send next; none once all are done.
    pub fn request(&self) -> (r: Option<Vec<String>>)
        ensures
            r.deep_view() == self@.request(),
            self@.wf(),
    {
        proof {
            use_type_invariant(self);
        }
        let ghost texts = self.texts.deep_view();
        let mut out: Vec<String> = Vec::new();
        match &self.single {
            Some(one) => {
                out.push(owned(one.text.as_str()));
                assert(out.deep_view() =~= seq![one.text@]);
            },
            None => {
                let total: usize = self.texts.len();
                if self.at >= total {
                    return None;
                }
                let end: usize = if total - self.at > EMBED_BATCH {
                    self.at + EMBED_BATCH
                } else {
                    total
                };
                let mut i: usize = self.at;
                assert(out.deep_view() =~= texts.subrange(i as int, i as int));
                while i < end
                    invariant
                        self.at <= i <= end <= self.texts@.len(),
                        texts == self.texts.deep_view(),
                        out.deep_view() == texts.subrange(self.at as int, i as int),
                    decreases end - i,
                {
                    let ghost before = out.deep_view();
                    out.push(owned(self.texts[i].as_str()));
                    assert(texts[i as int] == self.texts@[i as int]@);
                    assert(out.deep_view() =~= before.push(texts[i as int]));
                    assert(texts.subrange(self.at as int, i + 1) =~= before.push(texts[i as int]));
                    i = i + 1;
                }
            },
        }
        Some(out)
    }

    /// The plan after the answer to its request: the vectors, or none where it was refused.
    pub fn answered(self, answer: Option<Vec<V>>) -> (r: EmbedPlan<V>)
        requires
            self@.request() is Some,
            self@.takes(vectors_in(answer)),
        ensures
            r@ == self@.after(vectors_in(answer)),
            r@.wf(),
    {
        proof {
            use_type_invariant(&self);
        }
        let ghost start = self@;
        let EmbedPlan { texts, at, single, mut kept, mut vectors } = self;
        let total: usize = texts.len();
        let mut next: usize = at;
        let mut left: Option<Single> = None;
        match single {
            None => {
                let end: usize = if total - at > EMBED_BATCH {
                    at + EMBED_BATCH
                } else {
                    total
                };
                match answer {
                    Some(mut came) => {
                        let ghost vs = came@;
                        let ghost was = kept@;
                        let count: usize = came.len();
                        let mut j: usize = 0;
                        while j < count
                            invariant
                                j <= count,
                                at + count <= usize::MAX,
                                kept@ == was + Seq::new(j as nat, |j: int| (at + j) as usize),
                            decreases count - j,
                        {
                            kept.push(at + j);
                            j = j + 1;
                            assert(kept@ =~= was + Seq::new(j as nat, |j: int| (at + j) as usize));
                        }
                        vectors.append(&mut came);
                        next = end;
                        assert(kept@ =~= start.after(Some(vs)).kept);
                    },
                    None => {
                        left = Some(
                            Single { end, text: owned(texts[at].as_str()), tries: EMBED_TRIES },
                        );
                        assert(texts.deep_view()[at as int] == texts@[at as int]@);
                    },
                }
            },
            Some(one) => {
                let mut done: bool = true;
                match answer {
                    Some(mut came) => {
                        if let Some(v) = came.pop() {
                            kept.push(at);
                            vectors.push(v);
                        }
                    },
                    None => {
                        let n: usize = one.text.as_str().unicode_len();
                        if n > SMALLEST_CUT && one.tries > 1 {
                            let half: String = head_chars(one.text.as_str(), n / 2);
                            assert(half@ =~= one.text@.take(n as int / 2));
                            left = Some(Single { end: one.end, text: half, tries: one.tries - 1 });
                            done = false;
                        }
                    },
                }
                if done {
                    next = at + 1;
                    if next < one.end {
                        left = Some(
                            Single {
                                end: one.end,
                                text: owned(texts[next].as_str()),
                                tries: EMBED_TRIES,
                            },
                        );
                        assert(texts.deep_view()[next as int] == texts@[next as int]@);
                    }
                }
            },
        }
        EmbedPlan { texts, at: next, single: left, kept, vectors }
    }

    /// The places of the texts that were embedded, and their vectors.
    pub fn finish(self) -> (r: (Vec<usize>, Vec<V>))
        ensures
            r.0@ == self@.kept,
            r.1@ == self@.vectors,
            r.0@.len() == r.1@.len(),
            forall|i: int| 0 <= i < r.0@.len() ==> #[trigger] r.0@[i] < self@.texts.len(),
    {
        proof {
            use_type_invariant(&self);
        }
        (self.kept, self.vectors)
    }
}

/// The vectors of an answer.
pub open spec fn vectors_in<V>(answer: Option<Vec<V>>) -> Option<Seq<V>> {
    match answer {
        Some(vs) => Some(vs@),
        None => None,
    }
}

impl<V> PlanView<V> {
    /// How often at most a request can still be sent for the texts of the current batch.
    pub open spec fn tries_left(self) -> int {
        match self.single {
            Some(one) => one.tries,
            None => EMBED_TRIES + 1,
        }
    }

    /// The plan once all texts are done, where `service` answers every request.
    pub open spec fn run(self, service: spec_fn(Seq<Seq<char>>) -> Option<Seq<V>>) -> PlanView<V>
        decreases self.texts.len() - self.at, self.tries_left(),
        when self.wf()
    {
        match self.request() {
            Some(texts) => {
                proof {
                    self.lemma_goes_on(service(texts));
                }
                let next = self.after(service(texts));
                if next.wf() {
                    next.run(service)
                } else {
                    next
                }
            },
            None => self,
        }
    }

    /// Every answer brings a plan forward: more texts are done, or fewer requests are left for the
    /// current one. So a plan comes to its end whatever the service answers.
    pub proof fn lemma_goes_on(self, answer: Option<Seq<V>>)
        requires
            self.wf(),
            self.request() is Some,
        ensures
            self.after(answer).texts == self.texts,
            self.at <= self.after(answer).at <= self.texts.len(),
            self.after(answer).at > self.at || 0 <= self.after(answer).tries_left()
                < self.tries_left(),
            self.takes(answer) ==> self.after(answer).wf(),
    {
        let next = self.after(answer);
        if self.takes(answer) {
            assert forall|i: int| 0 <= i < next.kept.len() implies #[trigger] next.kept[i]
                < next.texts.len() by {
                if i < self.kept.len() {
                    assert(next.kept[i] == self.kept[i]);
                }
            }
        }
    }
}

/// Whether all texts have at most `limit` characters.
pub open spec fn all_short(texts: Seq<Seq<char>>, limit: nat) -> bool {
    forall|i: int| 0 <= i < texts.len() ==> (#[trigger] texts[i]).len() <= limit
}

/// Whether a service refuses exactly the requests that hold a text of more than `limit`
/// characters, and otherwise sends one vector for each text.
pub open spec fn accepts_up_to<V>(
    service: spec_fn(Seq<Seq<char>>) -> Option<Seq<V>>,
    limit: nat,
) -> bool {
    forall|texts: Seq<Seq<char>>|
        match #[trigger] service(texts) {
            Some(vs) => all_short(texts, limit) && vs.len() == texts.len(),
            None => !all_short(texts, limit),
        }
}

/// Whether a text of `n` characters is short enough after it was halved fewer than `tries` times.
pub open spec fn gets_short(n: nat, limit: nat, tries: int) -> bool
    decreases tries,
{
    n <= limit || (tries > 1 && gets_short(n / 2, limit, tries - 1))
}

/// The first `n` places.
pub open spec fn first_places(n: int) -> Seq<usize> {
    Seq::new(n as nat, |i: int| i as usize)
}

/// One text that is too long does not stop the others: where the service refuses what is longer
/// than `limit`, and `limit` is not below the size at which cutting ends, every text that is at
/// most thirty-two times as long gets a vector, and the vectors stand in the order of the texts.
pub proof fn lemma_long_texts_are_cut<V>(
    texts: Seq<Seq<char>>,
    service: spec_fn(Seq<Seq<char>>) -> Option<Seq<V>>,
    limit: nat,
)
    requires
        texts.len() <= usize::MAX,
        accepts_up_to(service, limit),
        limit >= SMALLEST_CUT,
        forall|i: int| 0 <= i < texts.len() ==> (#[trigger] texts[i]).len() <= 32 * limit,
    ensures
        ({
            let start = PlanView::<V> {
                texts,
                at: 0,
                single: None,
                kept: Seq::empty(),
                vectors: Seq::empty(),
            };
            start.run(service).kept == first_places(texts.len() as int)
                && start.run(service).vectors.len() == texts.len()
        }),
{
    let start = PlanView::<V> {
        texts,
        at: 0,
        single: None,
        kept: Seq::empty(),
        vectors: Seq::empty(),
    };
    assert(start.kept =~= first_places(0));
    lemma_run_keeps_all(start, service, limit);
}

proof fn lemma_run_keeps_all<V>(
    s: PlanView<V>,
    service: spec_fn(Seq<Seq<char>>) -> Option<Seq<V>>,
    limit: nat,
)
    requires
        s.wf(),
        accepts_up_to(service, limit),
        limit >= SMALLEST_CUT,
        forall|i: int| 0 <= i < s.texts.len() ==> (#[trigger] s.texts[i]).len() <= 32 * limit,
        s.kept == first_places(s.at),
        s.single matches Some(one) ==> gets_short(one.text.len(), limit, one.tries),
    ensures
        s.run(service).kept == first_places(s.texts.len() as int),
        s.run(service).vectors.len() == s.texts.len(),
    decreases s.texts.len() - s.at, s.tries_left(),
{
    match s.request() {
        None => {},
        Some(texts) => {
            let answer = service(texts);
            s.lemma_goes_on(answer);
            let next = s.after(answer);
            assert forall|i: int| 0 <= i < s.texts.len() implies gets_short(
                (#[trigger] s.texts[i]).len(),
                limit,
                EMBED_TRIES as int,
            ) by {
                reveal_with_fuel(gets_short, 7);
            }
            match s.single {
                None => {
                    assert(next.kept =~= first_places(next.at));
                },
                Some(one) => {
                    assert(texts[0] == one.text);
                    if answer is Some {
                        assert(next.kept =~= first_places(next.at));
                    } else {
                        if one.text.len() <= limit {
                            assert(all_short(texts, limit));
                        }
                        assert(next.single is Some);
                    }
                },
            }
            lemma_run_keeps_all(next, service, limit);
        },
    }
}

/// What is sent: the next texts, up to sixty-four, in their order and whole. A batch that is refused
/// is sent text by text; a text that is refused is cut in half, unless it has sixty-four characters
/// or fewer, or was sent six times; then the next text of the batch follows.
pub proof fn lemma_requests<V>(s: PlanView<V>)
    requires
        s.wf(),
    ensures
        s.single is None && s.at < s.texts.len() ==> s.request() == Some(
            s.texts.subrange(
                s.at,
                if s.at + 64 < s.texts.len() {
                    s.at + 64
                } else {
                    s.texts.len() as int
                },
            ),
        ) && s.after(None).request() == Some(seq![s.texts[s.at]]) && s.after(None).at == s.at,
        s.single is None && s.at >= s.texts.len() ==> s.request() is None,
        s.single matches Some(one) ==> {
            &&& s.request() == Some(seq![one.text])
            &&& one.text.len() > 64 && one.tries > 1 ==> s.after(None).request() == Some(
                seq![one.text.take(one.text.len() as int / 2)],
            ) && s.after(None).at == s.at
            &&& one.text.len() <= 64 || one.tries <= 1 ==> s.after(None).at == s.at + 1
                && s.after(None).kept == s.kept
            &&& (one.text.len() <= 64 || one.tries <= 1) && s.at + 1 < one.end ==> s.after(
                None,
            ).request() == Some(seq![s.texts[s.at + 1]])
        },
        EMBED_TRIES == 6,
{
}

/// Where the service gives every text its vector, each text gets the vector that is its own, and
/// they stand in the order of the texts.
pub proof fn lemma_every_text_its_vector<V>(
    texts: Seq<Seq<char>>,
    vector: spec_fn(Seq<char>) -> V,
)
    requires
        texts.len() <= usize::MAX,
    ensures
        ({
            let service = |ts: Seq<Seq<char>>| Some(ts.map_values(vector));
            let start = PlanView::<V> {
                texts,
                at: 0,
                single: None,
                kept: Seq::empty(),
                vectors: Seq::empty(),
            };
            &&& start.run(service).vectors == texts.map_values(vector)
            &&& start.run(service).kept == first_places(texts.len() as int)
        }),
{
    let service = |ts: Seq<Seq<char>>| Some(ts.map_values(vector));
    let start = PlanView::<V> {
        texts,
        at: 0,
        single: None,
        kept: Seq::empty(),
        vectors: Seq::empty(),
    };
    assert(first_places(0) =~= start.kept);
    assert(texts.take(0).map_values(vector) =~= start.vectors);
    lemma_run_all_served(start, vector, service);
}

proof fn lemma_run_all_served<V>(
    s: PlanView<V>,
    vector: spec_fn(Seq<char>) -> V,
    service: spec_fn(Seq<Seq<char>>) -> Option<Seq<V>>,
)
    requires
        s.wf(),
        s.single is None,
        s.kept == first_places(s.at),
        s.vectors == s.texts.take(s.at).map_values(vector),
        service == (|ts: Seq<Seq<char>>| Some(ts.map_values(vector))),
    ensures
        s.run(service).vectors == s.texts.map_values(vector),
        s.run(service).kept == first_places(s.texts.len() as int),
    decreases s.texts.len() - s.at,
{
    if s.at < s.texts.len() {
        let end = batch_end(s.texts.len() as int, s.at);
        let sent = s.texts.subrange(s.at, end);
        assert(s.request() == Some(sent));
        let vs = sent.map_values(vector);
        assert(service(sent) == Some(vs));
        let next = s.after(Some(vs));
        s.lemma_goes_on(Some(vs));
        assert(next.kept =~= first_places(end));
        assert(next.vectors =~= s.texts.take(end).map_values(vector));
        lemma_run_all_served(next, vector, service);
    } else {
        assert(s.texts.take(s.at) =~= s.texts);
    }
}

} // verus!
